//! What the runs of the three arms add up to.

use vstd::prelude::*;

use crate::calibration::Row;
use crate::config::AblationConfig;
use crate::config::Arm;
use crate::leakage::closest_is_one_fraction;
use crate::leakage::closest_own_is_one_fraction;
use crate::leakage::held_cards;
use crate::leakage::leakage_check;
use crate::leakage::leakage_passes;
use crate::leakage::pair_count;
use crate::leakage::split_probes;
use crate::leakage::stems;
use crate::leakage::CorpusCard;
use crate::leakage::LeakageReport;
use crate::number::Double;
use crate::number::Single;
use crate::number::DOUBLE_ZERO;
use crate::order::stable_sort_of;
use crate::overlap::same_fraction;
use crate::provenance::increasing_lists_are_decided_by_their_texts;
use crate::provenance::named_generators;
use crate::provenance::probe_generators;
use crate::provenance::strictly_increasing;
use crate::session::card_chronologies_decide_the_record;
use crate::session::chronology;
use crate::session::day_ordered;
use crate::session::the_record_keeps_card_chronologies;
use crate::session::Review;
use crate::text::texts;

verus! {

/// The record of one learner in one arm.
#[derive(Debug)]
pub struct ArmRun {
    pub arm: Arm,
    pub learner: usize,
    pub reviews: Vec<Review>,
    pub probes_in_collection: usize,
}

/// A review and whose it is.
#[derive(Debug, Clone, Copy, PartialEq, Eq, Structural)]
pub struct Event {
    pub learner: usize,
    pub review: Review,
}

/// The reviews of a run.
pub open spec fn run_events(run: ArmRun) -> Seq<Event> {
    run.reviews@.map_values(|r: Review| Event { learner: run.learner, review: r })
}

/// The reviews of an arm, run by run.
pub open spec fn arm_events(runs: Seq<ArmRun>, arm: Arm) -> Seq<Event>
    decreases runs.len(),
{
    if runs.len() == 0 {
        Seq::empty()
    } else {
        let front = arm_events(runs.drop_last(), arm);
        if runs.last().arm == arm {
            front + run_events(runs.last())
        } else {
            front
        }
    }
}

/// How many probes the collection of an arm held, by the last of its runs.
pub open spec fn arm_probes(runs: Seq<ArmRun>, arm: Arm) -> usize
    decreases runs.len(),
{
    if runs.len() == 0 {
        0
    } else if runs.last().arm == arm {
        runs.last().probes_in_collection
    } else {
        arm_probes(runs.drop_last(), arm)
    }
}

/// A review that tests recall: neither the first exposure nor a re-study minutes
/// after a failure.
pub open spec fn is_recall(r: Review) -> bool {
    !r.first_exposure && !r.relearn
}

/// A re-study after a failure.
pub open spec fn is_relearn(r: Review) -> bool {
    !r.first_exposure && r.relearn
}

/// A recall test with what the measurements ask about it.
#[derive(Debug, Clone, Copy, PartialEq, Eq, Structural)]
pub struct Recall {
    pub review: Review,
    /// The card is held back.
    pub held: bool,
    /// The learner learned the card by rote.
    pub rote: bool,
    /// The scheduler's retrievability reached the threshold for probes.
    pub high_r: bool,
}

/// The card of the review and the learner have an entry in the tables.
pub open spec fn is_known(e: Event, heldback: Seq<bool>, rote: Seq<Vec<bool>>) -> bool {
    &&& e.review.card < heldback.len()
    &&& e.learner < rote.len()
    &&& e.review.card < rote[e.learner as int]@.len()
}

pub open spec fn recall_of(
    e: Event,
    heldback: Seq<bool>,
    rote: Seq<Vec<bool>>,
    threshold: Single,
) -> Recall {
    Recall {
        review: e.review,
        held: heldback[e.review.card as int],
        rote: rote[e.learner as int]@[e.review.card as int],
        high_r: match e.review.sched_r_micro {
            Some(micro) => threshold.reached_by(micro),
            None => false,
        },
    }
}

/// The recall tests among the reviews of an arm.
pub open spec fn recalls_of(
    events: Seq<Event>,
    heldback: Seq<bool>,
    rote: Seq<Vec<bool>>,
    threshold: Single,
) -> Seq<Recall> {
    events.filter(|e: Event| is_recall(e.review)).map_values(
        |e: Event| recall_of(e, heldback, rote, threshold),
    )
}

/// How many reviews are re-studies.
pub open spec fn relearn_count(events: Seq<Event>) -> nat {
    events.filter(|e: Event| is_relearn(e.review)).len()
}

/// Which recall tests a measurement takes in.
#[derive(Debug, Clone, Copy, PartialEq, Eq, Structural)]
pub struct Selection {
    /// Whether a probe was shown, where it matters.
    pub probe: Option<bool>,
    /// Whether the card was learned by rote, where it matters.
    pub rote: Option<bool>,
    /// Only those of high retrievability.
    pub high_r: bool,
    /// Only those of held-back cards.
    pub held: bool,
}

impl Selection {
    pub open spec fn admits(self, r: Recall) -> bool {
        &&& self.probe matches Some(p) ==> r.review.probe_shown == p
        &&& self.rote matches Some(k) ==> r.rote == k
        &&& self.high_r ==> r.high_r
        &&& self.held ==> r.held
    }

    fn takes(self, r: &Recall) -> (b: bool)
        ensures
            b == self.admits(*r),
    {
        let probe_fits: bool = match self.probe {
            Some(p) => r.review.probe_shown == p,
            None => true,
        };
        let rote_fits: bool = match self.rote {
            Some(k) => r.rote == k,
            None => true,
        };
        probe_fits && rote_fits && (!self.high_r || r.high_r) && (!self.held || r.held)
    }
}

/// How many were passed, of how many.
#[derive(Debug, Clone, Copy, PartialEq, Eq, Structural)]
pub struct Tally {
    pub passes: usize,
    pub n: usize,
}

/// How many recall tests a selection takes in.
pub open spec fn selected(recalls: Seq<Recall>, s: Selection) -> nat {
    recalls.filter(|r: Recall| s.admits(r)).len()
}

/// How many of these were passed.
pub open spec fn selected_passes(recalls: Seq<Recall>, s: Selection) -> nat {
    recalls.filter(|r: Recall| s.admits(r) && r.review.passed).len()
}

impl Tally {
    pub open spec fn counts(self, recalls: Seq<Recall>, s: Selection) -> bool {
        &&& self.n == selected(recalls, s)
        &&& self.passes == selected_passes(recalls, s)
    }
}

/// The forecasts and outcomes of the recall tests that a selection takes in and
/// that the scheduler had a forecast for.
pub open spec fn rows_of(recalls: Seq<Recall>, s: Selection) -> Seq<Row> {
    recalls.filter(|r: Recall| s.admits(r) && r.review.sched_r_micro is Some).map_values(
        |r: Recall| Row { forecast_micro: r.review.sched_r_micro->0, passed: r.review.passed },
    )
}

fn collect_events(runs: &Vec<ArmRun>, arm: Arm) -> (events: Vec<Event>)
    ensures
        events@ == arm_events(runs@, arm),
{
    let mut events: Vec<Event> = Vec::new();
    proof {
        assert(events@ =~= arm_events(runs@.take(0), arm));
    }
    for i in 0..runs.len()
        invariant
            events@ == arm_events(runs@.take(i as int), arm),
    {
        let run = &runs[i];
        proof {
            assert(runs@.take(i + 1).drop_last() =~= runs@.take(i as int));
        }
        if run.arm == arm {
            let ghost before = events@;
            proof {
                assert(before + run_events(*run).take(0) =~= before);
            }
            for j in 0..run.reviews.len()
                invariant
                    events@ == before + run_events(*run).take(j as int),
            {
                events.push(Event { learner: run.learner, review: run.reviews[j] });
                proof {
                    assert(run_events(*run).take(j + 1) =~= run_events(*run).take(j as int).push(
                        run_events(*run)[j as int],
                    ));
                    assert(events@ =~= before + run_events(*run).take(j + 1));
                }
            }
            proof {
                assert(run_events(*run).take(run.reviews@.len() as int) =~= run_events(*run));
            }
        }
    }
    proof {
        assert(runs@.take(runs@.len() as int) =~= runs@);
    }
    events
}

fn last_probes(runs: &Vec<ArmRun>, arm: Arm) -> (n: usize)
    ensures
        n == arm_probes(runs@, arm),
{
    let mut n: usize = 0;
    for i in 0..runs.len()
        invariant
            n == arm_probes(runs@.take(i as int), arm),
    {
        proof {
            assert(runs@.take(i + 1).drop_last() =~= runs@.take(i as int));
        }
        if runs[i].arm == arm {
            n = runs[i].probes_in_collection;
        }
    }
    proof {
        assert(runs@.take(runs@.len() as int) =~= runs@);
    }
    n
}

fn count_relearns(events: &Vec<Event>) -> (n: usize)
    ensures
        n == relearn_count(events@),
{
    let mut n: usize = 0;
    proof {
        reveal(Seq::filter);
    }
    for i in 0..events.len()
        invariant
            n <= i,
            n == relearn_count(events@.take(i as int)),
    {
        proof {
            reveal(Seq::filter);
            assert(events@.take(i + 1).drop_last() =~= events@.take(i as int));
        }
        if !events[i].review.first_exposure && events[i].review.relearn {
            n = n + 1;
        }
    }
    proof {
        assert(events@.take(events@.len() as int) =~= events@);
    }
    n
}

fn collect_recalls(
    events: &Vec<Event>,
    heldback: &Vec<bool>,
    rote: &Vec<Vec<bool>>,
    threshold: Single,
) -> (recalls: Vec<Recall>)
    requires
        forall|i: int|
            0 <= i < events@.len() && is_recall((#[trigger] events@[i]).review) ==> is_known(
                events@[i],
                heldback@,
                rote@,
            ),
    ensures
        recalls@ == recalls_of(events@, heldback@, rote@, threshold),
{
    let mut recalls: Vec<Recall> = Vec::new();
    proof {
        reveal(Seq::filter);
        assert(recalls@ =~= recalls_of(events@.take(0), heldback@, rote@, threshold));
    }
    for i in 0..events.len()
        invariant
            forall|i: int|
                0 <= i < events@.len() && is_recall((#[trigger] events@[i]).review) ==> is_known(
                    events@[i],
                    heldback@,
                    rote@,
                ),
            recalls@ == recalls_of(events@.take(i as int), heldback@, rote@, threshold),
    {
        let e = events[i];
        let ghost before = recalls@;
        let ghost kept = events@.take(i as int).filter(|e: Event| is_recall(e.review));
        proof {
            reveal(Seq::filter);
            assert(events@.take(i + 1).drop_last() =~= events@.take(i as int));
            assert(events@.take(i + 1).last() == events@[i as int]);
        }
        if !e.review.first_exposure && !e.review.relearn {
            proof {
                assert(is_recall(events@[i as int].review));
            }
            let recall = Recall {
                review: e.review,
                held: heldback[e.review.card],
                rote: rote[e.learner][e.review.card],
                high_r: match e.review.sched_r_micro {
                    Some(micro) => threshold.is_reached_by(micro),
                    None => false,
                },
            };
            recalls.push(recall);
            proof {
                assert(recall == recall_of(e, heldback@, rote@, threshold));
                assert(kept.push(e).map_values(
                    |e: Event| recall_of(e, heldback@, rote@, threshold),
                ) =~= before.push(recall));
            }
        }
    }
    proof {
        assert(events@.take(events@.len() as int) =~= events@);
    }
    recalls
}

/// Counts the recall tests that a selection takes in, and those passed.
pub fn tally(recalls: &Vec<Recall>, s: Selection) -> (t: Tally)
    ensures
        t.counts(recalls@, s),
        t.passes <= t.n <= recalls@.len(),
{
    let mut n: usize = 0;
    let mut passes: usize = 0;
    proof {
        reveal(Seq::filter);
    }
    for i in 0..recalls.len()
        invariant
            passes <= n <= i,
            n == selected(recalls@.take(i as int), s),
            passes == selected_passes(recalls@.take(i as int), s),
    {
        proof {
            reveal(Seq::filter);
            assert(recalls@.take(i + 1).drop_last() =~= recalls@.take(i as int));
            assert(recalls@.take(i + 1).last() == recalls@[i as int]);
        }
        if s.takes(&recalls[i]) {
            n = n + 1;
            if recalls[i].review.passed {
                passes = passes + 1;
            }
        }
    }
    proof {
        assert(recalls@.take(recalls@.len() as int) =~= recalls@);
    }
    Tally { passes, n }
}

/// Collects the forecasts and outcomes that a selection takes in.
pub fn rows(recalls: &Vec<Recall>, s: Selection) -> (out: Vec<Row>)
    ensures
        out@ == rows_of(recalls@, s),
{
    let mut out: Vec<Row> = Vec::new();
    proof {
        reveal(Seq::filter);
        assert(out@ =~= rows_of(recalls@.take(0), s));
    }
    for i in 0..recalls.len()
        invariant
            out@ == rows_of(recalls@.take(i as int), s),
    {
        let r = recalls[i];
        let ghost before = out@;
        let ghost kept = recalls@.take(i as int).filter(
            |r: Recall| s.admits(r) && r.review.sched_r_micro is Some,
        );
        proof {
            reveal(Seq::filter);
            assert(recalls@.take(i + 1).drop_last() =~= recalls@.take(i as int));
            assert(recalls@.take(i + 1).last() == r);
        }
        if s.takes(&r) {
            if let Some(micro) = r.review.sched_r_micro {
                let row = Row { forecast_micro: micro, passed: r.review.passed };
                out.push(row);
                proof {
                    assert(kept.push(r).map_values(
                        |r: Recall|
                            Row {
                                forecast_micro: r.review.sched_r_micro->0,
                                passed: r.review.passed,
                            },
                    ) =~= before.push(row));
                }
            }
        }
    }
    proof {
        assert(recalls@.take(recalls@.len() as int) =~= recalls@);
    }
    out
}

/// The reviews of the first run of an arm by a learner.
pub open spec fn reviews_of(runs: Seq<ArmRun>, arm: Arm, learner: usize) -> Option<Seq<Review>>
    decreases runs.len(),
{
    if runs.len() == 0 {
        None
    } else if runs[0].arm == arm && runs[0].learner == learner {
        Some(runs[0].reviews@)
    } else {
        reviews_of(runs.drop_first(), arm, learner)
    }
}

/// Every learner ran both the stock and the off arm.
pub open spec fn has_pairs(runs: Seq<ArmRun>, learners: usize) -> bool {
    forall|l: usize|
        #![trigger reviews_of(runs, Arm::Stock, l)]
        #![trigger reviews_of(runs, Arm::Off, l)]
        l < learners ==> reviews_of(runs, Arm::Stock, l) is Some && reviews_of(
            runs,
            Arm::Off,
            l,
        ) is Some
}

/// A learner's off arm gave the same reviews as the stock arm.
pub open spec fn agrees(runs: Seq<ArmRun>, learner: usize) -> bool {
    reviews_of(runs, Arm::Stock, learner) == reviews_of(runs, Arm::Off, learner)
}

/// Two sequences part at `i`: they are the same before, and there they differ or
/// one of them ends.
pub open spec fn parts_at(a: Seq<Review>, b: Seq<Review>, i: int) -> bool {
    &&& 0 <= i <= a.len()
    &&& i <= b.len()
    &&& forall|j: int| 0 <= j < i ==> #[trigger] a[j] == b[j]
    &&& if i < a.len() && i < b.len() {
        a[i] != b[i]
    } else {
        a.len() != b.len()
    }
}

/// The `i`-th review, if there is one.
pub open spec fn review_at(s: Seq<Review>, i: int) -> Option<Review> {
    if 0 <= i < s.len() {
        Some(s[i])
    } else {
        None
    }
}

/// Where the off arm first parts from the stock arm.
#[derive(Debug, Clone, Copy, PartialEq, Eq, Structural)]
pub struct Divergence {
    pub learner: usize,
    pub review_index: usize,
    pub stock: Option<Review>,
    pub off: Option<Review>,
}

impl Divergence {
    pub open spec fn is_first(self, runs: Seq<ArmRun>, learners: usize) -> bool {
        let stock = reviews_of(runs, Arm::Stock, self.learner)->0;
        let off = reviews_of(runs, Arm::Off, self.learner)->0;
        &&& self.learner < learners
        &&& forall|l: usize| l < self.learner ==> #[trigger] agrees(runs, l)
        &&& parts_at(stock, off, self.review_index as int)
        &&& self.stock == review_at(stock, self.review_index as int)
        &&& self.off == review_at(off, self.review_index as int)
    }
}

/// Whether the off arm equals the stock arm, review for review.
#[derive(Debug, Clone, Copy, PartialEq, Eq, Structural)]
pub struct Equivalence {
    pub identical: bool,
    pub first_divergence: Option<Divergence>,
}

impl Equivalence {
    pub open spec fn compares(self, runs: Seq<ArmRun>, learners: usize) -> bool {
        &&& self.identical == (forall|l: usize| l < learners ==> #[trigger] agrees(runs, l))
        &&& match self.first_divergence {
            Some(d) => !self.identical && d.is_first(runs, learners),
            None => self.identical,
        }
    }
}

fn find_run(runs: &Vec<ArmRun>, arm: Arm, learner: usize) -> (k: usize)
    requires
        reviews_of(runs@, arm, learner) is Some,
    ensures
        k < runs@.len(),
        reviews_of(runs@, arm, learner) == Some(runs@[k as int].reviews@),
{
    let size: usize = runs.len();
    let mut k: usize = 0;
    proof {
        assert(runs@.skip(0) =~= runs@);
    }
    while !(runs[k].arm == arm && runs[k].learner == learner)
        invariant
            size == runs@.len(),
            k < size,
            reviews_of(runs@, arm, learner) is Some,
            reviews_of(runs@, arm, learner) == reviews_of(runs@.skip(k as int), arm, learner),
        decreases runs@.len() - k,
    {
        proof {
            assert(runs@.skip(k as int).drop_first() =~= runs@.skip(k + 1));
            if k + 1 == runs@.len() {
                assert(runs@.skip(k + 1) =~= Seq::<ArmRun>::empty());
            }
        }
        k = k + 1;
    }
    k
}

/// Where two records part, if they do.
pub fn first_difference(a: &Vec<Review>, b: &Vec<Review>) -> (at: Option<usize>)
    ensures
        match at {
            Some(i) => parts_at(a@, b@, i as int),
            None => a@ == b@,
        },
{
    let mut i: usize = 0;
    while i < a.len() && i < b.len() && a[i] == b[i]
        invariant
            i <= a@.len(),
            i <= b@.len(),
            forall|j: int| 0 <= j < i ==> #[trigger] a@[j] == b@[j],
        decreases a@.len() - i,
    {
        i = i + 1;
    }
    if i == a.len() && i == b.len() {
        proof {
            assert(a@ =~= b@);
        }
        None
    } else {
        Some(i)
    }
}

fn nth(s: &Vec<Review>, i: usize) -> (r: Option<Review>)
    ensures
        r == review_at(s@, i as int),
{
    if i < s.len() {
        Some(s[i])
    } else {
        None
    }
}

/// Compares the off arm with the stock arm, learner by learner and review by
/// review.
pub fn compare_arms(runs: &Vec<ArmRun>, learners: usize) -> (e: Equivalence)
    requires
        has_pairs(runs@, learners),
    ensures
        e.compares(runs@, learners),
{
    for l in 0..learners
        invariant
            has_pairs(runs@, learners),
            forall|m: usize| m < l ==> #[trigger] agrees(runs@, m),
    {
        proof {
            assert(reviews_of(runs@, Arm::Stock, l) is Some);
        }
        let stock = &runs[find_run(runs, Arm::Stock, l)].reviews;
        let off = &runs[find_run(runs, Arm::Off, l)].reviews;
        if let Some(i) = first_difference(stock, off) {
            let d = Divergence {
                learner: l,
                review_index: i,
                stock: nth(stock, i),
                off: nth(off, i),
            };
            proof {
                assert(stock@ != off@) by {
                    if stock@ == off@ && i < stock@.len() {
                        assert(stock@[i as int] == off@[i as int]);
                    }
                }
                assert(!agrees(runs@, l));
            }
            return Equivalence { identical: false, first_divergence: Some(d) };
        }
        proof {
            assert(agrees(runs@, l));
        }
    }
    Equivalence { identical: true, first_divergence: None }
}

/// What one arm adds up to. First exposures count nowhere.
#[derive(Debug, Clone, Copy, PartialEq, Eq, Structural)]
pub struct ArmTotals {
    pub arm: Arm,
    pub probes_in_collection: usize,
    pub recall_reviews: usize,
    pub relearning_steps: usize,
    pub probe_served_reviews: usize,
    pub passes: usize,
}

/// Every recall test.
pub open spec fn any_recall() -> Selection {
    Selection { probe: None, rote: None, high_r: false, held: false }
}

/// Recall tests that showed a probe, or the card itself.
pub open spec fn shown(probe: bool) -> Selection {
    Selection { probe: Some(probe), ..any_recall() }
}

/// Recall tests of held-back cards that showed a probe, or the card itself.
pub open spec fn held_shown(probe: bool) -> Selection {
    Selection { held: true, ..shown(probe) }
}

/// Recall tests of held-back cards at high retrievability that showed a probe, or
/// the card itself: what the gap is measured on.
pub open spec fn high_r_held_shown(probe: bool) -> Selection {
    Selection { high_r: true, ..held_shown(probe) }
}

/// Recall tests of cards learned by rote, or understood.
pub open spec fn of_rote(rote: bool) -> Selection {
    Selection { rote: Some(rote), ..any_recall() }
}

/// Recall tests by a probe of cards learned by rote, or understood.
pub open spec fn probe_of_rote(rote: bool) -> Selection {
    Selection { rote: Some(rote), ..shown(true) }
}

/// Recall tests of held-back cards.
pub open spec fn held_any() -> Selection {
    Selection { held: true, ..any_recall() }
}

impl ArmTotals {
    /// The totals add up the reviews of an arm.
    pub open spec fn add_up(
        self,
        runs: Seq<ArmRun>,
        arm: Arm,
        recalls: Seq<Recall>,
    ) -> bool {
        &&& self.arm == arm
        &&& self.probes_in_collection == arm_probes(runs, arm)
        &&& self.recall_reviews == recalls.len()
        &&& self.relearning_steps == relearn_count(arm_events(runs, arm))
        &&& self.probe_served_reviews == selected(recalls, shown(true))
        &&& self.passes == selected_passes(recalls, any_recall())
    }
}

fn totals(
    runs: &Vec<ArmRun>,
    arm: Arm,
    events: &Vec<Event>,
    recalls: &Vec<Recall>,
) -> (t: ArmTotals)
    requires
        events@ == arm_events(runs@, arm),
    ensures
        t.add_up(runs@, arm, recalls@),
{
    let all = tally(recalls, Selection { probe: None, rote: None, high_r: false, held: false });
    let probes = tally(
        recalls,
        Selection { probe: Some(true), rote: None, high_r: false, held: false },
    );
    ArmTotals {
        arm,
        probes_in_collection: last_probes(runs, arm),
        recall_reviews: recalls.len(),
        relearning_steps: count_relearns(events),
        probe_served_reviews: probes.n,
        passes: all.passes,
    }
}

/// Every n-th card is held back.
pub open spec fn heldback_of(n_cards: nat, every: usize) -> Seq<bool> {
    Seq::new(n_cards, |i: int| i % every as int == 0)
}

/// Which cards are held back: every n-th, from the first on.
pub fn heldback_split(n_cards: usize, every: usize) -> (held: Vec<bool>)
    requires
        n_cards > 0 ==> every > 0,
    ensures
        held@ == heldback_of(n_cards as nat, every),
{
    let mut held: Vec<bool> = Vec::new();
    for i in 0..n_cards
        invariant
            n_cards > 0 ==> every > 0,
            held@ == heldback_of(i as nat, every),
    {
        held.push(i % every == 0);
        proof {
            assert(held@ =~= heldback_of((i + 1) as nat, every));
        }
    }
    held
}

/// The measured results of an experiment.
#[derive(Debug)]
pub struct RunReport {
    pub probe_generators: Vec<String>,
    pub n_cards: usize,
    pub stock: ArmTotals,
    pub off: ArmTotals,
    pub on: ArmTotals,
    pub equivalence: Equivalence,
    /// On arm, held-back cards at high retrievability: the original card was shown.
    pub high_r_original: Tally,
    /// On arm, held-back cards at high retrievability: the probe was shown.
    pub high_r_probe: Tally,
    pub off_understood: Tally,
    pub off_rote: Tally,
    pub on_probe_understood: Tally,
    pub on_probe_rote: Tally,
    /// Off arm, held-back cards.
    pub off_card_rows: Vec<Row>,
    /// On arm, held-back cards, the probe was shown.
    pub on_probe_rows: Vec<Row>,
    /// On arm, held-back cards, the original card was shown.
    pub on_original_rows: Vec<Row>,
    pub leakage: LeakageReport,
    /// The arms agree and nothing leaked.
    pub run_valid: bool,
}

/// The recall tests of an arm of an experiment.
pub open spec fn arm_recalls(
    cfg: AblationConfig,
    n_cards: nat,
    rote: Seq<Vec<bool>>,
    runs: Seq<ArmRun>,
    arm: Arm,
) -> Seq<Recall> {
    recalls_of(
        arm_events(runs, arm),
        heldback_of(n_cards, cfg.heldback_every),
        rote,
        cfg.probe_threshold,
    )
}

impl RunReport {
    /// The report describes an experiment.
    pub open spec fn describes(
        self,
        cfg: AblationConfig,
        corpus: Seq<CorpusCard>,
        provenances: Seq<String>,
        rote: Seq<Vec<bool>>,
        runs: Seq<ArmRun>,
    ) -> bool {
        let n = corpus.len();
        let stock = arm_recalls(cfg, n, rote, runs, Arm::Stock);
        let off = arm_recalls(cfg, n, rote, runs, Arm::Off);
        let on = arm_recalls(cfg, n, rote, runs, Arm::On);
        &&& strictly_increasing(texts(self.probe_generators@))
        &&& texts(self.probe_generators@).to_set() == named_generators(texts(provenances)).to_set()
        &&& self.n_cards == n
        &&& self.stock.add_up(runs, Arm::Stock, stock)
        &&& self.off.add_up(runs, Arm::Off, off)
        &&& self.on.add_up(runs, Arm::On, on)
        &&& self.equivalence.compares(runs, cfg.learners)
        &&& self.high_r_original.counts(on, high_r_held_shown(false))
        &&& self.high_r_probe.counts(on, high_r_held_shown(true))
        &&& self.off_understood.counts(off, of_rote(false))
        &&& self.off_rote.counts(off, of_rote(true))
        &&& self.on_probe_understood.counts(on, probe_of_rote(false))
        &&& self.on_probe_rote.counts(on, probe_of_rote(true))
        &&& self.off_card_rows@ == rows_of(off, held_any())
        &&& self.on_probe_rows@ == rows_of(on, held_shown(true))
        &&& self.on_original_rows@ == rows_of(on, held_shown(false))
        &&& self.leakage.describes(corpus, heldback_of(n, cfg.heldback_every))
        &&& self.run_valid == (self.equivalence.identical && self.leakage.passed)
    }
}

/// There are no cards to study.
#[derive(Debug, Clone, Copy, PartialEq, Eq, Structural)]
pub struct EmptyCorpus;

/// The tables have an entry for every learner and card, and no recall test is
/// about a card that the corpus lacks.
pub open spec fn covers(n_cards: nat, rote: Seq<Vec<bool>>, runs: Seq<ArmRun>) -> bool {
    &&& forall|l: int| 0 <= l < rote.len() ==> (#[trigger] rote[l])@.len() == n_cards
    &&& forall|k: int| 0 <= k < runs.len() ==> (#[trigger] runs[k]).learner < rote.len()
    &&& forall|k: int, i: int|
        #![trigger runs[k].reviews@[i]]
        0 <= k < runs.len() && 0 <= i < runs[k].reviews@.len() && is_recall(runs[k].reviews@[i])
            ==> runs[k].reviews@[i].card < n_cards
}

pub(crate) proof fn lemma_events_are_known(
    n_cards: nat,
    every: usize,
    rote: Seq<Vec<bool>>,
    runs: Seq<ArmRun>,
    arm: Arm,
)
    requires
        covers(n_cards, rote, runs),
    ensures
        forall|i: int|
            0 <= i < arm_events(runs, arm).len() && is_recall(
                (#[trigger] arm_events(runs, arm)[i]).review,
            ) ==> is_known(arm_events(runs, arm)[i], heldback_of(n_cards, every), rote),
    decreases runs.len(),
{
    if runs.len() > 0 {
        let front = runs.drop_last();
        assert forall|k: int| 0 <= k < front.len() implies (#[trigger] front[k]).learner
            < rote.len() by {
            assert(front[k] == runs[k]);
        }
        assert forall|k: int, i: int|
            #![trigger front[k].reviews@[i]]
            0 <= k < front.len() && 0 <= i < front[k].reviews@.len() && is_recall(
                front[k].reviews@[i],
            ) implies front[k].reviews@[i].card < n_cards by {
            assert(front[k] == runs[k]);
            assert(is_recall(runs[k].reviews@[i]));
        }
        lemma_events_are_known(n_cards, every, rote, front, arm);
        let last = runs.len() - 1;
        let all = arm_events(runs, arm);
        let before = arm_events(front, arm);
        assert forall|i: int|
            0 <= i < all.len() && is_recall((#[trigger] all[i]).review) implies is_known(
            all[i],
            heldback_of(n_cards, every),
            rote,
        ) by {
            if i < before.len() {
                assert(all[i] == before[i]);
            } else {
                let j = i - before.len();
                assert(all[i] == run_events(runs[last])[j]);
                assert(is_recall(runs[last].reviews@[j]));
                assert(rote[runs[last].learner as int]@.len() == n_cards);
            }
        }
    }
}

/// Measures the runs of an experiment: `rote` says which cards each learner
/// learned by rote, `provenances` where the stored probes came from.
pub fn run(
    cfg: &AblationConfig,
    corpus: &Vec<CorpusCard>,
    provenances: &Vec<String>,
    rote: &Vec<Vec<bool>>,
    runs: &Vec<ArmRun>,
) -> (report: Result<RunReport, EmptyCorpus>)
    requires
        corpus@.len() > 0 ==> {
            &&& cfg.heldback_every > 0
            &&& pair_count(corpus@, heldback_of(corpus@.len(), cfg.heldback_every)) <= usize::MAX
            &&& has_pairs(runs@, cfg.learners)
            &&& covers(corpus@.len(), rote@, runs@)
        },
    ensures
        match report {
            Ok(r) => corpus@.len() > 0 && r.describes(
                *cfg,
                corpus@,
                provenances@,
                rote@,
                runs@,
            ),
            Err(_) => corpus@.len() == 0,
        },
{
    let n_cards: usize = corpus.len();
    if n_cards == 0 {
        return Err(EmptyCorpus);
    }
    let heldback = heldback_split(n_cards, cfg.heldback_every);
    proof {
        lemma_events_are_known(corpus@.len(), cfg.heldback_every, rote@, runs@, Arm::Stock);
        lemma_events_are_known(corpus@.len(), cfg.heldback_every, rote@, runs@, Arm::Off);
        lemma_events_are_known(corpus@.len(), cfg.heldback_every, rote@, runs@, Arm::On);
    }
    let stock_events = collect_events(runs, Arm::Stock);
    let off_events = collect_events(runs, Arm::Off);
    let on_events = collect_events(runs, Arm::On);
    let stock = collect_recalls(&stock_events, &heldback, rote, cfg.probe_threshold);
    let off = collect_recalls(&off_events, &heldback, rote, cfg.probe_threshold);
    let on = collect_recalls(&on_events, &heldback, rote, cfg.probe_threshold);
    let any = Selection { probe: None, rote: None, high_r: false, held: false };
    let original = Selection { probe: Some(false), ..any };
    let probe = Selection { probe: Some(true), ..any };
    let equivalence = compare_arms(runs, cfg.learners);
    let leakage = leakage_check(corpus, &heldback);
    Ok(
        RunReport {
            probe_generators: probe_generators(provenances),
            n_cards,
            stock: totals(runs, Arm::Stock, &stock_events, &stock),
            off: totals(runs, Arm::Off, &off_events, &off),
            on: totals(runs, Arm::On, &on_events, &on),
            equivalence,
            high_r_original: tally(&on, Selection { high_r: true, held: true, ..original }),
            high_r_probe: tally(&on, Selection { high_r: true, held: true, ..probe }),
            off_understood: tally(&off, Selection { rote: Some(false), ..any }),
            off_rote: tally(&off, Selection { rote: Some(true), ..any }),
            on_probe_understood: tally(&on, Selection { rote: Some(false), ..probe }),
            on_probe_rote: tally(&on, Selection { rote: Some(true), ..probe }),
            off_card_rows: rows(&off, Selection { held: true, ..any }),
            on_probe_rows: rows(&on, Selection { held: true, ..probe }),
            on_original_rows: rows(&on, Selection { held: true, ..original }),
            leakage,
            run_valid: equivalence.identical && leakage.passed,
        },
    )
}

/// The bit pattern of the least gap that speaks for the claim, 0.05.
pub const LEAST_GAP: u64 = 0x3fa9_9999_9999_999a;

/// The scores of a run: the gap between the pass rates of the original card and
/// of the probe on held-back cards, the lower end of its 95% interval, and the Brier scores of the
/// forecasts for probe and card outcomes where there are any.
#[derive(Debug, Clone, Copy, PartialEq, Eq, Structural)]
pub struct Scores {
    pub gap: Double,
    pub gap_low: Double,
    pub probe_brier: Option<Double>,
    pub card_brier: Option<Double>,
}

/// What a run says about the claim.
#[derive(Debug, Clone, Copy, PartialEq, Eq, Structural)]
pub struct Verdict {
    pub run_valid: bool,
    pub falsified_by_gap: bool,
    pub falsified_by_brier: bool,
    pub claim_supported: bool,
}

/// The gap is under its least size, or its interval includes zero.
pub open spec fn gap_falsifies(s: Scores) -> bool {
    !((Double { bits: LEAST_GAP }).at_most(s.gap) && (Double { bits: DOUBLE_ZERO }).less(s.gap_low))
}

/// The forecasts predict probe outcomes at least as well as card outcomes, or
/// one of the two has no data, which is no evidence for the claim.
pub open spec fn brier_falsifies(s: Scores) -> bool {
    match (s.probe_brier, s.card_brier) {
        (Some(probe), Some(card)) => probe.at_most(card),
        _ => true,
    }
}

/// The verdict on a run.
pub open spec fn verdict_of(run_valid: bool, s: Scores) -> Verdict {
    Verdict {
        run_valid,
        falsified_by_gap: gap_falsifies(s),
        falsified_by_brier: brier_falsifies(s),
        claim_supported: run_valid && !gap_falsifies(s) && !brier_falsifies(s),
    }
}

/// Judges a run by the conditions that were stated beforehand.
pub fn verdict(run_valid: bool, s: &Scores) -> (v: Verdict)
    ensures
        v == verdict_of(run_valid, *s),
{
    let by_gap: bool = !((Double { bits: LEAST_GAP }).is_at_most(s.gap) && (Double {
        bits: DOUBLE_ZERO,
    }).is_less(s.gap_low));
    let by_brier: bool = match (s.probe_brier, s.card_brier) {
        (Some(probe), Some(card)) => probe.is_at_most(card),
        _ => true,
    };
    Verdict {
        run_valid,
        falsified_by_gap: by_gap,
        falsified_by_brier: by_brier,
        claim_supported: run_valid && !by_gap && !by_brier,
    }
}

/// The claim is supported only by a valid run with data on both sides, a gap of
/// at least the least size whose interval lies above zero, and a worse score on
/// probes than on cards.
pub proof fn support_needs_evidence(run_valid: bool, s: Scores)
    ensures
        verdict_of(run_valid, s).claim_supported ==> {
            &&& run_valid
            &&& s.probe_brier is Some
            &&& s.card_brier is Some
            &&& (Double { bits: LEAST_GAP }).at_most(s.gap)
            &&& (Double { bits: DOUBLE_ZERO }).less(s.gap_low)
            &&& !s.probe_brier->0.at_most(s.card_brier->0)
        },
        s.probe_brier is None || s.card_brier is None ==> verdict_of(
            run_valid,
            s,
        ).falsified_by_brier,
{
}

/// A run is invalid when the off arm parts from the stock arm for any learner, or
/// when the leakage check fails.
pub proof fn contamination_or_divergence_invalidates(
    r: RunReport,
    cfg: AblationConfig,
    corpus: Seq<CorpusCard>,
    provenances: Seq<String>,
    rote: Seq<Vec<bool>>,
    runs: Seq<ArmRun>,
)
    requires
        r.describes(cfg, corpus, provenances, rote, runs),
    ensures
        r.run_valid == ((forall|l: usize| l < cfg.learners ==> #[trigger] agrees(runs, l))
            && leakage_passes(corpus, heldback_of(corpus.len(), cfg.heldback_every))),
{
}

proof fn lemma_rote_halves(recalls: Seq<Recall>, base: Selection)
    requires
        base.rote is None,
    ensures
        selected(recalls, Selection { rote: Some(false), ..base }) + selected(
            recalls,
            Selection { rote: Some(true), ..base },
        ) == selected(recalls, base),
        selected_passes(recalls, Selection { rote: Some(false), ..base }) + selected_passes(
            recalls,
            Selection { rote: Some(true), ..base },
        ) == selected_passes(recalls, base),
    decreases recalls.len(),
{
    reveal(Seq::filter);
    if recalls.len() > 0 {
        lemma_rote_halves(recalls.drop_last(), base);
    }
}

pub(crate) proof fn lemma_all_are_selected(recalls: Seq<Recall>)
    ensures
        selected(recalls, any_recall()) == recalls.len(),
    decreases recalls.len(),
{
    reveal(Seq::filter);
    if recalls.len() > 0 {
        lemma_all_are_selected(recalls.drop_last());
    }
}

/// Every recall test of the off arm, and every one by a probe of the on arm,
/// counts once: as one of a card learned by rote or of an understood one.
pub proof fn rote_and_understood_make_all(
    r: RunReport,
    cfg: AblationConfig,
    corpus: Seq<CorpusCard>,
    provenances: Seq<String>,
    rote: Seq<Vec<bool>>,
    runs: Seq<ArmRun>,
)
    requires
        r.describes(cfg, corpus, provenances, rote, runs),
    ensures
        r.off_understood.n + r.off_rote.n == r.off.recall_reviews,
        r.off_understood.passes + r.off_rote.passes == r.off.passes,
        r.on_probe_understood.n + r.on_probe_rote.n == r.on.probe_served_reviews,
{
    let off = arm_recalls(cfg, corpus.len(), rote, runs, Arm::Off);
    let on = arm_recalls(cfg, corpus.len(), rote, runs, Arm::On);
    lemma_rote_halves(off, any_recall());
    lemma_all_are_selected(off);
    lemma_rote_halves(on, shown(true));
}

proof fn lemma_events_split(events: Seq<Event>)
    ensures
        events.len() == events.filter(|e: Event| e.review.first_exposure).len() + relearn_count(
            events,
        ) + events.filter(|e: Event| is_recall(e.review)).len(),
    decreases events.len(),
{
    reveal(Seq::filter);
    if events.len() > 0 {
        lemma_events_split(events.drop_last());
    }
}

/// Every review of an arm is a first exposure, a re-study or a recall test, and
/// only recall tests are measured.
pub proof fn reviews_are_counted_once(
    runs: Seq<ArmRun>,
    arm: Arm,
    heldback: Seq<bool>,
    rote: Seq<Vec<bool>>,
    threshold: Single,
)
    ensures
        arm_events(runs, arm).len() == arm_events(runs, arm).filter(
            |e: Event| e.review.first_exposure,
        ).len() + relearn_count(arm_events(runs, arm)) + recalls_of(
            arm_events(runs, arm),
            heldback,
            rote,
            threshold,
        ).len(),
        forall|i: int|
            0 <= i < recalls_of(arm_events(runs, arm), heldback, rote, threshold).len()
                ==> is_recall(
                (#[trigger] recalls_of(arm_events(runs, arm), heldback, rote, threshold)[i]).review,
            ),
{
    let events = arm_events(runs, arm);
    lemma_events_split(events);
    let all = recalls_of(events, heldback, rote, threshold);
    assert forall|i: int| 0 <= i < all.len() implies is_recall((#[trigger] all[i]).review) by {
        events.lemma_filter_pred(|e: Event| is_recall(e.review), i);
    }
}

/// The gap is measured on the held-back cards only: a recall test of any other
/// card, whatever its retrievability and outcome, leaves both tallies as they are.
pub proof fn the_gap_ignores_other_cards(t: Tally, recalls: Seq<Recall>, r: Recall, probe: bool)
    requires
        t.counts(recalls, high_r_held_shown(probe)),
        !r.held,
    ensures
        t.counts(recalls.push(r), high_r_held_shown(probe)),
{
    reveal(Seq::filter);
    assert(recalls.push(r).drop_last() =~= recalls);
}

/// A report holds a row only for a held-back card: scores see no others.
pub proof fn rows_come_from_heldback_cards(recalls: Seq<Recall>, s: Selection, i: int)
    requires
        s.held,
        0 <= i < rows_of(recalls, s).len(),
    ensures
        exists|k: int|
            0 <= k < recalls.len() && (#[trigger] recalls[k]).held && rows_of(recalls, s)[i] == (Row {
                forecast_micro: recalls[k].review.sched_r_micro->0,
                passed: recalls[k].review.passed,
            }),
    decreases recalls.len(),
{
    reveal(Seq::filter);
    let front = recalls.drop_last();
    let before = rows_of(front, s);
    let all = rows_of(recalls, s);
    if i < before.len() {
        rows_come_from_heldback_cards(front, s, i);
        let k = choose|k: int|
            0 <= k < front.len() && (#[trigger] front[k]).held && before[i] == (Row {
                forecast_micro: front[k].review.sched_r_micro->0,
                passed: front[k].review.passed,
            });
        assert(recalls[k] == front[k]);
        assert(all[i] == before[i]);
    } else {
        assert(recalls[recalls.len() - 1] == recalls.last());
    }
}

/// Where every off run gave the same reviews as the stock run of its learner, the
/// arms are found identical and no divergence is reported.
pub proof fn equal_arms_are_found_identical(e: Equivalence, runs: Seq<ArmRun>, learners: usize)
    requires
        e.compares(runs, learners),
        forall|l: usize| l < learners ==> #[trigger] agrees(runs, l),
    ensures
        e.identical,
        e.first_divergence is None,
{
}

proof fn lemma_one_parting(a: Seq<Review>, b: Seq<Review>, i: int, j: int)
    requires
        parts_at(a, b, i),
        parts_at(a, b, j),
    ensures
        i == j,
{
    if i < j {
        assert(a[i] == b[i]);
    } else if j < i {
        assert(a[j] == b[j]);
    }
}

/// The comparison of two arms has one answer.
pub proof fn comparisons_have_one_answer(
    e: Equivalence,
    f: Equivalence,
    runs: Seq<ArmRun>,
    learners: usize,
)
    requires
        has_pairs(runs, learners),
        e.compares(runs, learners),
        f.compares(runs, learners),
    ensures
        e == f,
{
    if let Some(d) = e.first_divergence {
        let g = f.first_divergence->0;
        lemma_parted_learner_disagrees(d, runs, learners);
        lemma_parted_learner_disagrees(g, runs, learners);
        if d.learner < g.learner {
            assert(agrees(runs, d.learner));
        } else if g.learner < d.learner {
            assert(agrees(runs, g.learner));
        }
        lemma_one_parting(
            reviews_of(runs, Arm::Stock, d.learner)->0,
            reviews_of(runs, Arm::Off, d.learner)->0,
            d.review_index as int,
            g.review_index as int,
        );
    }
}

proof fn lemma_parted_learner_disagrees(d: Divergence, runs: Seq<ArmRun>, learners: usize)
    requires
        has_pairs(runs, learners),
        d.is_first(runs, learners),
    ensures
        !agrees(runs, d.learner),
{
    let a = reviews_of(runs, Arm::Stock, d.learner)->0;
    let b = reviews_of(runs, Arm::Off, d.learner)->0;
    let i = d.review_index as int;
    if agrees(runs, d.learner) {
        assert(a == b);
    }
}

/// Two reports on the same experiment say the same: nothing but the settings, the
/// corpus, the provenance records, the rote table and the runs goes into a
/// report. Overlaps are the same as fractions.
pub proof fn one_experiment_one_report(
    r: RunReport,
    s: RunReport,
    cfg: AblationConfig,
    corpus: Seq<CorpusCard>,
    provenances: Seq<String>,
    rote: Seq<Vec<bool>>,
    runs: Seq<ArmRun>,
)
    requires
        has_pairs(runs, cfg.learners),
        r.describes(cfg, corpus, provenances, rote, runs),
        s.describes(cfg, corpus, provenances, rote, runs),
    ensures
        texts(r.probe_generators@) == texts(s.probe_generators@),
        r.n_cards == s.n_cards,
        r.stock == s.stock,
        r.off == s.off,
        r.on == s.on,
        r.equivalence == s.equivalence,
        r.high_r_original == s.high_r_original,
        r.high_r_probe == s.high_r_probe,
        r.off_understood == s.off_understood,
        r.off_rote == s.off_rote,
        r.on_probe_understood == s.on_probe_understood,
        r.on_probe_rote == s.on_probe_rote,
        r.off_card_rows@ == s.off_card_rows@,
        r.on_probe_rows@ == s.on_probe_rows@,
        r.on_original_rows@ == s.on_original_rows@,
        r.run_valid == s.run_valid,
        r.leakage.passed == s.leakage.passed,
        r.leakage.pairs_checked == s.leakage.pairs_checked,
        r.leakage.exact_duplicates == s.leakage.exact_duplicates,
        r.leakage.near_dup_vs_heldback_cards == s.leakage.near_dup_vs_heldback_cards,
        r.leakage.near_dup_vs_heldback_probes == s.leakage.near_dup_vs_heldback_probes,
        r.leakage.probes_containing_own_answer == s.leakage.probes_containing_own_answer,
        same_fraction(
            r.leakage.max_overlap_vs_heldback_cards,
            s.leakage.max_overlap_vs_heldback_cards,
        ),
        same_fraction(
            r.leakage.max_overlap_vs_heldback_probes,
            s.leakage.max_overlap_vs_heldback_probes,
        ),
        same_fraction(
            r.leakage.max_overlap_with_own_card,
            s.leakage.max_overlap_with_own_card,
        ),
{
    increasing_lists_are_decided_by_their_texts(
        texts(r.probe_generators@),
        texts(s.probe_generators@),
    );
    comparisons_have_one_answer(r.equivalence, s.equivalence, runs, cfg.learners);
    let heldback = heldback_of(corpus.len(), cfg.heldback_every);
    let probes = split_probes(corpus, heldback, false);
    closest_is_one_fraction(
        r.leakage.max_overlap_vs_heldback_cards,
        s.leakage.max_overlap_vs_heldback_cards,
        probes,
        held_cards(corpus, heldback),
    );
    closest_is_one_fraction(
        r.leakage.max_overlap_vs_heldback_probes,
        s.leakage.max_overlap_vs_heldback_probes,
        probes,
        split_probes(corpus, heldback, true),
    );
    closest_own_is_one_fraction(
        r.leakage.max_overlap_with_own_card,
        s.leakage.max_overlap_with_own_card,
        stems(corpus),
    );
}

/// What the comparison of the arms means: a learner's arms agree exactly when
/// every card had the same reviews in the same order in both, whatever the order
/// in which the cards of a day were served.
pub proof fn arms_agree_where_chronologies_do(
    runs: Seq<ArmRun>,
    learner: usize,
    stock: Seq<Review>,
    off: Seq<Review>,
)
    requires
        day_ordered(stock),
        day_ordered(off),
        reviews_of(runs, Arm::Stock, learner) matches Some(record) && stable_sort_of(stock, record),
        reviews_of(runs, Arm::Off, learner) matches Some(record) && stable_sort_of(off, record),
    ensures
        agrees(runs, learner) == (forall|card: int| #[trigger]
            chronology(stock, card) == chronology(off, card)),
{
    let a = reviews_of(runs, Arm::Stock, learner)->0;
    let b = reviews_of(runs, Arm::Off, learner)->0;
    if agrees(runs, learner) {
        assert forall|card: int| #[trigger] chronology(stock, card) == chronology(off, card) by {
            the_record_keeps_card_chronologies(stock, a, card);
            the_record_keeps_card_chronologies(off, b, card);
        }
    }
    if forall|card: int| #[trigger] chronology(stock, card) == chronology(off, card) {
        card_chronologies_decide_the_record(stock, off, a, b);
    }
}

/// The claim is supported exactly when the run is valid and neither condition
/// falsifies it. The gap falsifies it exactly when it is under 0.05 or its interval
/// does not lie above zero; the scores do exactly when one is missing or that of the
/// probes is at most that of the cards.
pub proof fn the_verdict_weighs_each_condition_once(run_valid: bool, s: Scores)
    ensures
        ({
            let v = verdict_of(run_valid, s);
            &&& v.run_valid == run_valid
            &&& v.claim_supported <==> v.run_valid && !v.falsified_by_gap && !v.falsified_by_brier
            &&& !v.falsified_by_gap <==> (Double { bits: 0x3fa9_9999_9999_999a }).at_most(s.gap)
                && (Double { bits: 0 }).less(s.gap_low)
            &&& v.falsified_by_brier <==> (s.probe_brier is None || s.card_brier is None
                || s.probe_brier->0.at_most(s.card_brier->0))
        }),
{
}

/// A valid run with both scores, a gap of at least 0.05 whose interval lies above
/// zero, and probes predicted worse than cards supports the claim.
pub proof fn evidence_supports_the_claim(s: Scores)
    requires
        s.probe_brier is Some,
        s.card_brier is Some,
        s.card_brier->0.less(s.probe_brier->0),
        (Double { bits: 0x3fa9_9999_9999_999a }).at_most(s.gap),
        (Double { bits: 0 }).less(s.gap_low),
    ensures
        verdict_of(true, s).claim_supported,
        !verdict_of(false, s).claim_supported,
{
}

/// More evidence of the same kind never takes support away: a larger gap, an
/// interval further up, a worse score on probes, a better one on cards.
pub proof fn stronger_evidence_keeps_support(run_valid: bool, a: Scores, b: Scores)
    requires
        verdict_of(run_valid, a).claim_supported,
        a.gap.at_most(b.gap),
        a.gap_low.at_most(b.gap_low),
        b.probe_brier is Some,
        b.card_brier is Some,
        a.probe_brier->0.at_most(b.probe_brier->0),
        b.card_brier->0.at_most(a.card_brier->0),
    ensures
        verdict_of(run_valid, b).claim_supported,
{
}

/// Every n-th card is held back, from the first on, and none between two of them.
pub proof fn heldback_cards_are_evenly_spaced(n_cards: nat, every: usize, i: int)
    requires
        every > 0,
        0 <= i < n_cards,
    ensures
        heldback_of(n_cards, every).len() == n_cards,
        i == 0 ==> heldback_of(n_cards, every)[i],
        0 < i < every ==> !heldback_of(n_cards, every)[i],
        i + every < n_cards ==> heldback_of(n_cards, every)[i + every] == heldback_of(
            n_cards,
            every,
        )[i],
{
    let m = every as int;
    if i < m {
        vstd::arithmetic::div_mod::lemma_small_mod(i as nat, m as nat);
    }
    vstd::arithmetic::div_mod::lemma_mod_add_multiples_vanish(i, m);
}

/// Run `k` is the first of an arm by a learner.
pub open spec fn is_first_run(runs: Seq<ArmRun>, arm: Arm, learner: usize, k: int) -> bool {
    &&& 0 <= k < runs.len()
    &&& runs[k].arm == arm
    &&& runs[k].learner == learner
    &&& forall|j: int|
        0 <= j < k ==> !((#[trigger] runs[j]).arm == arm && runs[j].learner == learner)
}

proof fn lemma_first_run(runs: Seq<ArmRun>, arm: Arm, learner: usize, k: int)
    requires
        is_first_run(runs, arm, learner, k),
    ensures
        reviews_of(runs, arm, learner) == Some(runs[k].reviews@),
    decreases k,
{
    if k > 0 {
        let rest = runs.drop_first();
        assert(!(runs[0].arm == arm && runs[0].learner == learner));
        assert forall|j: int| 0 <= j < k - 1 implies !((#[trigger] rest[j]).arm == arm
            && rest[j].learner == learner) by {
            assert(rest[j] == runs[j + 1]);
        }
        lemma_first_run(rest, arm, learner, k - 1);
    }
}

/// The arms are found identical exactly when, for every learner, the stock run and
/// the off run hold the same reviews from first to last.
pub proof fn identical_means_review_for_review(
    e: Equivalence,
    runs: Seq<ArmRun>,
    learners: usize,
    stock: Seq<int>,
    off: Seq<int>,
)
    requires
        e.compares(runs, learners),
        stock.len() == learners,
        off.len() == learners,
        forall|l: usize|
            l < learners ==> is_first_run(runs, Arm::Stock, l, #[trigger] stock[l as int]),
        forall|l: usize| l < learners ==> is_first_run(runs, Arm::Off, l, #[trigger] off[l as int]),
    ensures
        e.identical <==> forall|l: int|
            #![trigger stock[l]]
            0 <= l < learners ==> runs[stock[l]].reviews@ == runs[off[l]].reviews@,
        e.first_divergence is None <==> e.identical,
{
    assert forall|l: usize| l < learners implies #[trigger] agrees(runs, l) == (
    runs[stock[l as int]].reviews@ == runs[off[l as int]].reviews@) by {
        assert(is_first_run(runs, Arm::Stock, l, stock[l as int]));
        assert(is_first_run(runs, Arm::Off, l, off[l as int]));
        lemma_first_run(runs, Arm::Stock, l, stock[l as int]);
        lemma_first_run(runs, Arm::Off, l, off[l as int]);
    }
    if e.identical {
        assert forall|l: int|
            #![trigger stock[l]]
            0 <= l < learners implies runs[stock[l]].reviews@ == runs[off[l]].reviews@ by {
            assert(agrees(runs, l as usize));
        }
    }
    if forall|l: int|
        #![trigger stock[l]]
        0 <= l < learners ==> runs[stock[l]].reviews@ == runs[off[l]].reviews@ {
        assert forall|l: usize| l < learners implies #[trigger] agrees(runs, l) by {
            assert(runs[stock[l as int]].reviews@ == runs[off[l as int]].reviews@);
        }
    }
}

/// The divergence that is reported is the first: earlier learners agree, and up to
/// it this learner's runs do; there they hold different reviews, or one has ended.
pub proof fn the_reported_divergence_is_the_first(
    e: Equivalence,
    d: Divergence,
    runs: Seq<ArmRun>,
    learners: usize,
    k: int,
    m: int,
)
    requires
        e.compares(runs, learners),
        e.first_divergence == Some(d),
        is_first_run(runs, Arm::Stock, d.learner, k),
        is_first_run(runs, Arm::Off, d.learner, m),
    ensures
        d.learner < learners,
        d.stock != d.off,
        d.review_index <= runs[k].reviews@.len(),
        d.review_index <= runs[m].reviews@.len(),
        runs[k].reviews@.take(d.review_index as int) == runs[m].reviews@.take(
            d.review_index as int,
        ),
        d.stock == if d.review_index < runs[k].reviews@.len() {
            Some(runs[k].reviews@[d.review_index as int])
        } else {
            None
        },
        d.off == if d.review_index < runs[m].reviews@.len() {
            Some(runs[m].reviews@[d.review_index as int])
        } else {
            None
        },
        forall|l: usize, i: int, j: int|
            #![trigger is_first_run(runs, Arm::Stock, l, i), is_first_run(runs, Arm::Off, l, j)]
            l < d.learner && is_first_run(runs, Arm::Stock, l, i) && is_first_run(
                runs,
                Arm::Off,
                l,
                j,
            ) ==> runs[i].reviews@ == runs[j].reviews@,
{
    lemma_first_run(runs, Arm::Stock, d.learner, k);
    lemma_first_run(runs, Arm::Off, d.learner, m);
    assert(runs[k].reviews@.take(d.review_index as int) =~= runs[m].reviews@.take(
        d.review_index as int,
    ));
    assert forall|l: usize, i: int, j: int|
        #![trigger is_first_run(runs, Arm::Stock, l, i), is_first_run(runs, Arm::Off, l, j)]
        l < d.learner && is_first_run(runs, Arm::Stock, l, i) && is_first_run(
            runs,
            Arm::Off,
            l,
            j,
        ) implies runs[i].reviews@ == runs[j].reviews@ by {
        lemma_first_run(runs, Arm::Stock, l, i);
        lemma_first_run(runs, Arm::Off, l, j);
        assert(agrees(runs, l));
    }
}

/// A run is valid exactly when its arms are identical and its leakage check passes,
/// and its report is on all the cards of the corpus.
pub proof fn a_valid_run_is_fair(
    r: RunReport,
    cfg: AblationConfig,
    corpus: Seq<CorpusCard>,
    provenances: Seq<String>,
    rote: Seq<Vec<bool>>,
    runs: Seq<ArmRun>,
)
    requires
        r.describes(cfg, corpus, provenances, rote, runs),
    ensures
        r.run_valid <==> r.equivalence.identical && r.leakage.passed,
        r.n_cards == corpus.len(),
{
}

} // verus!
