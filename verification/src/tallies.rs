//! What the numbers of a report count, said of the reviews themselves.
//!
//! Each number is that of the places in the runs where a review of a certain sort
//! stands. A place is the number of a run and that of a review in it.

use vstd::prelude::*;

use crate::calibration::Row;
use crate::config::AblationConfig;
use crate::config::Arm;
use crate::counting::fan;
use crate::counting::lemma_fan_start;
use crate::counting::lemma_fan_step;
use crate::counting::lemma_filter_agree;
use crate::counting::lemma_filter_map_filter;
use crate::counting::lemma_map_filter;
use crate::counting::picked_items_have_places;
use crate::counting::places;
use crate::leakage::CorpusCard;
use crate::report::any_recall;
use crate::report::arm_events;
use crate::report::arm_probes;
use crate::report::arm_recalls;
use crate::report::covers;
use crate::report::heldback_of;
use crate::report::held_any;
use crate::report::held_shown;
use crate::report::high_r_held_shown;
use crate::report::is_recall;
use crate::report::is_relearn;
use crate::report::lemma_all_are_selected;
use crate::report::lemma_events_are_known;
use crate::report::of_rote;
use crate::report::probe_of_rote;
use crate::report::recall_of;
use crate::report::rows_of;
use crate::report::run_events;
use crate::report::shown;
use crate::report::ArmRun;
use crate::report::ArmTotals;
use crate::report::Event;
use crate::report::Recall;
use crate::report::RunReport;
use crate::report::Selection;
use crate::session::Review;

verus! {

/// The places of an arm's reviews that satisfy a predicate on learner and review.
pub open spec fn spots(
    runs: Seq<ArmRun>,
    arm: Arm,
    p: spec_fn(usize, Review) -> bool,
) -> Set<(int, int)> {
    Set::new(
        |x: (int, int)|
            0 <= x.0 < runs.len() && runs[x.0].arm == arm && 0 <= x.1 < runs[x.0].reviews@.len()
                && p(runs[x.0].learner, runs[x.0].reviews@[x.1]),
    )
}

/// How many of an arm's reviews satisfy a predicate.
pub open spec fn count(runs: Seq<ArmRun>, arm: Arm, p: spec_fn(usize, Review) -> bool) -> nat {
    spots(runs, arm, p).len()
}

/// The review tests recall: it is neither the first exposure nor a re-study.
pub open spec fn tests(r: Review) -> bool {
    !r.first_exposure && !r.relearn
}

/// The card's number is a multiple of the distance between held-back cards.
pub open spec fn on_held_card(cfg: AblationConfig, r: Review) -> bool {
    r.card as int % cfg.heldback_every as int == 0
}

/// There was a forecast, and it reached the threshold for probes.
pub open spec fn at_high_r(cfg: AblationConfig, r: Review) -> bool {
    r.sched_r_micro is Some && cfg.probe_threshold.reached_by(r.sched_r_micro->0)
}

/// The learner learned the card by rote.
pub open spec fn by_rote(rote: Seq<Vec<bool>>, learner: usize, r: Review) -> bool {
    rote[learner as int]@[r.card as int]
}

proof fn lemma_spots(runs: Seq<ArmRun>, arm: Arm, p: spec_fn(usize, Review) -> bool, n: nat)
    requires
        n <= runs.len(),
    ensures
        spots(runs.take(n as int), arm, p).finite(),
        spots(runs.take(n as int), arm, p).len() == arm_events(runs.take(n as int), arm).filter(
            |e: Event| p(e.learner, e.review),
        ).len(),
    decreases n,
{
    let q = |e: Event| p(e.learner, e.review);
    let f = |k: int|
        if runs[k].arm == arm {
            places(runs[k].reviews@, |r: Review| p(runs[k].learner, r))
        } else {
            Set::<int>::empty()
        };
    let here = runs.take(n as int);
    assert(spots(here, arm, p) =~= fan(n, f));
    if n == 0 {
        reveal(Seq::filter);
        lemma_fan_start(f);
    } else {
        let m = (n - 1) as nat;
        let run = runs[m as int];
        lemma_spots(runs, arm, p, m);
        assert(here.drop_last() =~= runs.take(m as int));
        assert(here.last() == run);
        assert(spots(runs.take(m as int), arm, p) =~= fan(m, f));
        let one = |r: Review| p(run.learner, r);
        picked_items_have_places(run.reviews@, one);
        lemma_fan_step(m, f);
        if run.arm == arm {
            let event = |r: Review| Event { learner: run.learner, review: r };
            Seq::filter_distributes_over_add(
                arm_events(runs.take(m as int), arm),
                run_events(run),
                q,
            );
            lemma_map_filter(run.reviews@, event, q);
            lemma_filter_agree(run.reviews@, |r: Review| q(event(r)), one);
        }
    }
}

/// The reviews of an arm that satisfy a predicate are as many as their places.
proof fn lemma_count(runs: Seq<ArmRun>, arm: Arm, p: spec_fn(usize, Review) -> bool)
    ensures
        spots(runs, arm, p).finite(),
        count(runs, arm, p) == arm_events(runs, arm).filter(
            |e: Event| p(e.learner, e.review),
        ).len(),
{
    lemma_spots(runs, arm, p, runs.len());
    assert(runs.take(runs.len() as int) =~= runs);
}

/// A recall test with what the settings and the rote table say of it.
spec fn marked(cfg: AblationConfig, rote: Seq<Vec<bool>>, learner: usize, r: Review) -> Recall {
    Recall {
        review: r,
        held: on_held_card(cfg, r),
        rote: by_rote(rote, learner, r),
        high_r: at_high_r(cfg, r),
    }
}

/// What a predicate picks among the recall tests of an arm is what it picks among
/// its reviews.
proof fn lemma_recall_count(
    cfg: AblationConfig,
    n_cards: nat,
    rote: Seq<Vec<bool>>,
    runs: Seq<ArmRun>,
    arm: Arm,
    q: spec_fn(Recall) -> bool,
    p: spec_fn(usize, Review) -> bool,
)
    requires
        covers(n_cards, rote, runs),
        forall|l: usize, r: Review| #[trigger] p(l, r) == (tests(r) && q(marked(cfg, rote, l, r))),
    ensures
        arm_recalls(cfg, n_cards, rote, runs, arm).filter(q).len() == count(runs, arm, p),
{
    let events = arm_events(runs, arm);
    let heldback = heldback_of(n_cards, cfg.heldback_every);
    let recalled = |e: Event| is_recall(e.review);
    let mark = |e: Event| recall_of(e, heldback, rote, cfg.probe_threshold);
    lemma_filter_map_filter(events, recalled, mark, q);
    lemma_events_are_known(n_cards, cfg.heldback_every, rote, runs, arm);
    let both = |e: Event| recalled(e) && q(mark(e));
    let plain = |e: Event| p(e.learner, e.review);
    assert forall|i: int| 0 <= i < events.len() implies both(#[trigger] events[i]) == plain(
        events[i],
    ) by {
        let e = events[i];
        if is_recall(e.review) {
            assert(mark(e) == marked(cfg, rote, e.learner, e.review));
        }
        assert(p(e.learner, e.review) == (tests(e.review) && q(
            marked(cfg, rote, e.learner, e.review),
        )));
    }
    lemma_filter_agree(events, both, plain);
    lemma_count(runs, arm, p);
}

/// The places of reviews are finitely many, and how many satisfy a predicate is
/// counted one review at a time: a run more adds those of its reviews that do.
pub proof fn reviews_are_counted_by_place(
    runs: Seq<ArmRun>,
    run: ArmRun,
    arm: Arm,
    p: spec_fn(usize, Review) -> bool,
)
    ensures
        spots(runs, arm, p).finite(),
        count(runs.push(run), arm, p) == count(runs, arm, p) + if run.arm == arm {
            places(run.reviews@, |r: Review| p(run.learner, r)).len()
        } else {
            0
        },
{
    let all = runs.push(run);
    let f = |k: int|
        if all[k].arm == arm {
            places(all[k].reviews@, |r: Review| p(all[k].learner, r))
        } else {
            Set::<int>::empty()
        };
    lemma_count(runs, arm, p);
    picked_items_have_places(run.reviews@, |r: Review| p(run.learner, r));
    assert(spots(runs, arm, p) =~= fan(runs.len(), f));
    assert(spots(all, arm, p) =~= fan(all.len(), f));
    lemma_fan_step(runs.len(), f);
}

proof fn lemma_arm_totals(
    t: ArmTotals,
    cfg: AblationConfig,
    n_cards: nat,
    rote: Seq<Vec<bool>>,
    runs: Seq<ArmRun>,
    arm: Arm,
)
    requires
        covers(n_cards, rote, runs),
        t.add_up(runs, arm, arm_recalls(cfg, n_cards, rote, runs, arm)),
    ensures
        counts_reviews(t, runs, arm),
{
    let recalls = arm_recalls(cfg, n_cards, rote, runs, arm);
    lemma_all_are_selected(recalls);
    let all = any_recall();
    let probe = shown(true);
    lemma_recall_count(
        cfg,
        n_cards,
        rote,
        runs,
        arm,
        |r: Recall| all.admits(r),
        |l: usize, r: Review| !r.first_exposure && !r.relearn,
    );
    lemma_recall_count(
        cfg,
        n_cards,
        rote,
        runs,
        arm,
        |r: Recall| all.admits(r) && r.review.passed,
        |l: usize, r: Review| !r.first_exposure && !r.relearn && r.passed,
    );
    lemma_recall_count(
        cfg,
        n_cards,
        rote,
        runs,
        arm,
        |r: Recall| probe.admits(r),
        |l: usize, r: Review| !r.first_exposure && !r.relearn && r.probe_shown,
    );
    let again = |l: usize, r: Review| !r.first_exposure && r.relearn;
    lemma_count(runs, arm, again);
    lemma_filter_agree(
        arm_events(runs, arm),
        |e: Event| again(e.learner, e.review),
        |e: Event| is_relearn(e.review),
    );
    assert forall|k: int| is_last_run(runs, arm, k) implies t.probes_in_collection == (
    #[trigger] runs[k]).probes_in_collection by {
        lemma_last_run(runs, arm, k);
    }
}

/// Run `k` is the last of an arm.
pub open spec fn is_last_run(runs: Seq<ArmRun>, arm: Arm, k: int) -> bool {
    &&& 0 <= k < runs.len()
    &&& runs[k].arm == arm
    &&& forall|j: int| k < j < runs.len() ==> (#[trigger] runs[j]).arm != arm
}

proof fn lemma_last_run(runs: Seq<ArmRun>, arm: Arm, k: int)
    requires
        is_last_run(runs, arm, k),
    ensures
        arm_probes(runs, arm) == runs[k].probes_in_collection,
    decreases runs.len(),
{
    let front = runs.drop_last();
    if k < runs.len() - 1 {
        assert(runs[runs.len() - 1].arm != arm);
        assert forall|j: int| k < j < front.len() implies (#[trigger] front[j]).arm != arm by {
            assert(front[j] == runs[j]);
        }
        lemma_last_run(front, arm, k);
    }
}

/// The totals of an arm count its recall tests, re-studies, probes shown and
/// passes, and give the probes that its last run found.
pub open spec fn counts_reviews(t: ArmTotals, runs: Seq<ArmRun>, arm: Arm) -> bool {
    &&& t.arm == arm
    &&& t.recall_reviews == count(
        runs,
        arm,
        |l: usize, r: Review| !r.first_exposure && !r.relearn,
    )
    &&& t.relearning_steps == count(
        runs,
        arm,
        |l: usize, r: Review| !r.first_exposure && r.relearn,
    )
    &&& t.probe_served_reviews == count(
        runs,
        arm,
        |l: usize, r: Review| !r.first_exposure && !r.relearn && r.probe_shown,
    )
    &&& t.passes == count(
        runs,
        arm,
        |l: usize, r: Review| !r.first_exposure && !r.relearn && r.passed,
    )
    &&& forall|k: int|
        is_last_run(runs, arm, k) ==> t.probes_in_collection == (
        #[trigger] runs[k]).probes_in_collection
}

/// The totals of each arm count the reviews of that arm's runs and of no other.
pub proof fn totals_count_the_reviews_of_their_arm(
    r: RunReport,
    cfg: AblationConfig,
    corpus: Seq<CorpusCard>,
    provenances: Seq<String>,
    rote: Seq<Vec<bool>>,
    runs: Seq<ArmRun>,
)
    requires
        r.describes(cfg, corpus, provenances, rote, runs),
        covers(corpus.len(), rote, runs),
    ensures
        counts_reviews(r.stock, runs, Arm::Stock),
        counts_reviews(r.off, runs, Arm::Off),
        counts_reviews(r.on, runs, Arm::On),
{
    lemma_arm_totals(r.stock, cfg, corpus.len(), rote, runs, Arm::Stock);
    lemma_arm_totals(r.off, cfg, corpus.len(), rote, runs, Arm::Off);
    lemma_arm_totals(r.on, cfg, corpus.len(), rote, runs, Arm::On);
}

/// A tally counts what a predicate picks, and the passed ones among it.
proof fn lemma_tally(
    cfg: AblationConfig,
    n_cards: nat,
    rote: Seq<Vec<bool>>,
    runs: Seq<ArmRun>,
    arm: Arm,
    s: Selection,
    p: spec_fn(usize, Review) -> bool,
)
    requires
        covers(n_cards, rote, runs),
        forall|l: usize, r: Review| #[trigger] p(l, r) == (tests(r) && s.admits(
            marked(cfg, rote, l, r),
        )),
    ensures
        crate::report::selected(arm_recalls(cfg, n_cards, rote, runs, arm), s) == count(
            runs,
            arm,
            p,
        ),
        crate::report::selected_passes(arm_recalls(cfg, n_cards, rote, runs, arm), s) == count(
            runs,
            arm,
            |l: usize, r: Review| p(l, r) && r.passed,
        ),
{
    lemma_recall_count(cfg, n_cards, rote, runs, arm, |r: Recall| s.admits(r), p);
    lemma_recall_count(
        cfg,
        n_cards,
        rote,
        runs,
        arm,
        |r: Recall| s.admits(r) && r.review.passed,
        |l: usize, r: Review| p(l, r) && r.passed,
    );
}

/// The gap is measured on the on arm's recall tests of held-back cards whose
/// forecast reached the threshold: one tally counts those that showed the original
/// card, the other those that showed the probe.
pub proof fn gap_tallies_count_heldback_tests_at_high_retrievability(
    r: RunReport,
    cfg: AblationConfig,
    corpus: Seq<CorpusCard>,
    provenances: Seq<String>,
    rote: Seq<Vec<bool>>,
    runs: Seq<ArmRun>,
)
    requires
        r.describes(cfg, corpus, provenances, rote, runs),
        covers(corpus.len(), rote, runs),
    ensures
        r.high_r_original.n == count(
            runs,
            Arm::On,
            |l: usize, x: Review|
                tests(x) && on_held_card(cfg, x) && at_high_r(cfg, x) && !x.probe_shown,
        ),
        r.high_r_original.passes == count(
            runs,
            Arm::On,
            |l: usize, x: Review|
                tests(x) && on_held_card(cfg, x) && at_high_r(cfg, x) && !x.probe_shown && x.passed,
        ),
        r.high_r_probe.n == count(
            runs,
            Arm::On,
            |l: usize, x: Review|
                tests(x) && on_held_card(cfg, x) && at_high_r(cfg, x) && x.probe_shown,
        ),
        r.high_r_probe.passes == count(
            runs,
            Arm::On,
            |l: usize, x: Review|
                tests(x) && on_held_card(cfg, x) && at_high_r(cfg, x) && x.probe_shown && x.passed,
        ),
{
    let n = corpus.len();
    let original = |l: usize, x: Review|
        tests(x) && on_held_card(cfg, x) && at_high_r(cfg, x) && !x.probe_shown;
    let probe = |l: usize, x: Review|
        tests(x) && on_held_card(cfg, x) && at_high_r(cfg, x) && x.probe_shown;
    lemma_tally(cfg, n, rote, runs, Arm::On, high_r_held_shown(false), original);
    lemma_tally(cfg, n, rote, runs, Arm::On, high_r_held_shown(true), probe);
    lemma_same_count(
        runs,
        Arm::On,
        |l: usize, x: Review| original(l, x) && x.passed,
        |l: usize, x: Review|
            tests(x) && on_held_card(cfg, x) && at_high_r(cfg, x) && !x.probe_shown && x.passed,
    );
    lemma_same_count(
        runs,
        Arm::On,
        |l: usize, x: Review| probe(l, x) && x.passed,
        |l: usize, x: Review|
            tests(x) && on_held_card(cfg, x) && at_high_r(cfg, x) && x.probe_shown && x.passed,
    );
}

proof fn lemma_same_count(
    runs: Seq<ArmRun>,
    arm: Arm,
    p: spec_fn(usize, Review) -> bool,
    q: spec_fn(usize, Review) -> bool,
)
    requires
        forall|l: usize, r: Review| #[trigger] p(l, r) == q(l, r),
    ensures
        count(runs, arm, p) == count(runs, arm, q),
{
    assert(spots(runs, arm, p) =~= spots(runs, arm, q));
}

/// The rote tallies split the off arm's recall tests, and the on arm's recall tests
/// by a probe, by whether the learner learned the card by rote.
pub proof fn rote_tallies_count_by_the_rote_table(
    r: RunReport,
    cfg: AblationConfig,
    corpus: Seq<CorpusCard>,
    provenances: Seq<String>,
    rote: Seq<Vec<bool>>,
    runs: Seq<ArmRun>,
)
    requires
        r.describes(cfg, corpus, provenances, rote, runs),
        covers(corpus.len(), rote, runs),
    ensures
        r.off_understood.n == count(
            runs,
            Arm::Off,
            |l: usize, x: Review| tests(x) && !by_rote(rote, l, x),
        ),
        r.off_understood.passes == count(
            runs,
            Arm::Off,
            |l: usize, x: Review| tests(x) && !by_rote(rote, l, x) && x.passed,
        ),
        r.off_rote.n == count(
            runs,
            Arm::Off,
            |l: usize, x: Review| tests(x) && by_rote(rote, l, x),
        ),
        r.off_rote.passes == count(
            runs,
            Arm::Off,
            |l: usize, x: Review| tests(x) && by_rote(rote, l, x) && x.passed,
        ),
        r.on_probe_understood.n == count(
            runs,
            Arm::On,
            |l: usize, x: Review| tests(x) && x.probe_shown && !by_rote(rote, l, x),
        ),
        r.on_probe_understood.passes == count(
            runs,
            Arm::On,
            |l: usize, x: Review| tests(x) && x.probe_shown && !by_rote(rote, l, x) && x.passed,
        ),
        r.on_probe_rote.n == count(
            runs,
            Arm::On,
            |l: usize, x: Review| tests(x) && x.probe_shown && by_rote(rote, l, x),
        ),
        r.on_probe_rote.passes == count(
            runs,
            Arm::On,
            |l: usize, x: Review| tests(x) && x.probe_shown && by_rote(rote, l, x) && x.passed,
        ),
{
    let n = corpus.len();
    let a = |l: usize, x: Review| tests(x) && !by_rote(rote, l, x);
    let b = |l: usize, x: Review| tests(x) && by_rote(rote, l, x);
    let c = |l: usize, x: Review| tests(x) && x.probe_shown && !by_rote(rote, l, x);
    let d = |l: usize, x: Review| tests(x) && x.probe_shown && by_rote(rote, l, x);
    lemma_tally(cfg, n, rote, runs, Arm::Off, of_rote(false), a);
    lemma_tally(cfg, n, rote, runs, Arm::Off, of_rote(true), b);
    lemma_tally(cfg, n, rote, runs, Arm::On, probe_of_rote(false), c);
    lemma_tally(cfg, n, rote, runs, Arm::On, probe_of_rote(true), d);
    lemma_same_count(
        runs,
        Arm::Off,
        |l: usize, x: Review| a(l, x) && x.passed,
        |l: usize, x: Review| tests(x) && !by_rote(rote, l, x) && x.passed,
    );
    lemma_same_count(
        runs,
        Arm::Off,
        |l: usize, x: Review| b(l, x) && x.passed,
        |l: usize, x: Review| tests(x) && by_rote(rote, l, x) && x.passed,
    );
    lemma_same_count(
        runs,
        Arm::On,
        |l: usize, x: Review| c(l, x) && x.passed,
        |l: usize, x: Review| tests(x) && x.probe_shown && !by_rote(rote, l, x) && x.passed,
    );
    lemma_same_count(
        runs,
        Arm::On,
        |l: usize, x: Review| d(l, x) && x.passed,
        |l: usize, x: Review| tests(x) && x.probe_shown && by_rote(rote, l, x) && x.passed,
    );
}

/// `rows` holds, for every forecast and outcome, as many rows as an arm has reviews
/// with these that satisfy a predicate, and no others.
pub open spec fn rows_hold(
    rows: Seq<Row>,
    runs: Seq<ArmRun>,
    arm: Arm,
    p: spec_fn(Review) -> bool,
) -> bool {
    &&& rows.len() == count(runs, arm, |l: usize, x: Review| p(x) && x.sched_r_micro is Some)
    &&& forall|forecast: u32, passed: bool| #[trigger]
        rows.to_multiset().count(Row { forecast_micro: forecast, passed }) == count(
            runs,
            arm,
            |l: usize, x: Review|
                p(x) && x.sched_r_micro == Some(forecast) && x.passed == passed,
        )
}

/// How often an item stands in a sequence.
proof fn lemma_multiset_count(s: Seq<Row>, x: Row)
    ensures
        s.to_multiset().count(x) == s.filter(|y: Row| y == x).len(),
    decreases s.len(),
{
    broadcast use vstd::seq_lib::group_to_multiset_ensures;

    reveal(Seq::filter);
    if s.len() > 0 {
        lemma_multiset_count(s.drop_last(), x);
        assert(s.drop_last().push(s.last()) =~= s);
    } else {
        assert(s =~= Seq::<Row>::empty());
    }
}

proof fn lemma_rows(
    cfg: AblationConfig,
    n_cards: nat,
    rote: Seq<Vec<bool>>,
    runs: Seq<ArmRun>,
    arm: Arm,
    s: Selection,
    p: spec_fn(Review) -> bool,
)
    requires
        covers(n_cards, rote, runs),
        forall|l: usize, r: Review|
            #![trigger marked(cfg, rote, l, r)]
            p(r) == (tests(r) && s.admits(marked(cfg, rote, l, r))),
    ensures
        rows_hold(rows_of(arm_recalls(cfg, n_cards, rote, runs, arm), s), runs, arm, p),
{
    let recalls = arm_recalls(cfg, n_cards, rote, runs, arm);
    let rows = rows_of(recalls, s);
    let kept = |r: Recall| s.admits(r) && r.review.sched_r_micro is Some;
    let row = |r: Recall|
        Row { forecast_micro: r.review.sched_r_micro->0, passed: r.review.passed };
    lemma_recall_count(
        cfg,
        n_cards,
        rote,
        runs,
        arm,
        kept,
        |l: usize, x: Review| p(x) && x.sched_r_micro is Some,
    );
    assert forall|forecast: u32, passed: bool| #[trigger]
        rows.to_multiset().count(Row { forecast_micro: forecast, passed }) == count(
            runs,
            arm,
            |l: usize, x: Review|
                p(x) && x.sched_r_micro == Some(forecast) && x.passed == passed,
        ) by {
        let wanted = Row { forecast_micro: forecast, passed };
        let same = |y: Row| y == wanted;
        lemma_multiset_count(rows, wanted);
        lemma_filter_map_filter(recalls, kept, row, same);
        lemma_recall_count(
            cfg,
            n_cards,
            rote,
            runs,
            arm,
            |r: Recall| kept(r) && same(row(r)),
            |l: usize, x: Review|
                p(x) && x.sched_r_micro == Some(forecast) && x.passed == passed,
        );
    }
}

/// The rows that are scored are those of held-back recall tests with a forecast,
/// whatever it was: all of the off arm, and of the on arm those that showed the
/// probe and those that showed the original card, each in its own list.
pub proof fn rows_score_every_heldback_test_with_a_forecast(
    r: RunReport,
    cfg: AblationConfig,
    corpus: Seq<CorpusCard>,
    provenances: Seq<String>,
    rote: Seq<Vec<bool>>,
    runs: Seq<ArmRun>,
)
    requires
        r.describes(cfg, corpus, provenances, rote, runs),
        covers(corpus.len(), rote, runs),
    ensures
        rows_hold(
            r.off_card_rows@,
            runs,
            Arm::Off,
            |x: Review| !x.first_exposure && !x.relearn && on_held_card(cfg, x),
        ),
        rows_hold(
            r.on_probe_rows@,
            runs,
            Arm::On,
            |x: Review| !x.first_exposure && !x.relearn && on_held_card(cfg, x) && x.probe_shown,
        ),
        rows_hold(
            r.on_original_rows@,
            runs,
            Arm::On,
            |x: Review| !x.first_exposure && !x.relearn && on_held_card(cfg, x) && !x.probe_shown,
        ),
        r.on_probe_rows@.len() + r.on_original_rows@.len() == count(
            runs,
            Arm::On,
            |l: usize, x: Review|
                !x.first_exposure && !x.relearn && on_held_card(cfg, x) && x.sched_r_micro is Some,
        ),
{
    let n = corpus.len();
    let any = |x: Review| !x.first_exposure && !x.relearn && on_held_card(cfg, x);
    let probe = |x: Review|
        !x.first_exposure && !x.relearn && on_held_card(cfg, x) && x.probe_shown;
    let original = |x: Review|
        !x.first_exposure && !x.relearn && on_held_card(cfg, x) && !x.probe_shown;
    lemma_rows(cfg, n, rote, runs, Arm::Off, held_any(), any);
    lemma_rows(cfg, n, rote, runs, Arm::On, held_shown(true), probe);
    lemma_rows(cfg, n, rote, runs, Arm::On, held_shown(false), original);
    let all = |l: usize, x: Review|
        !x.first_exposure && !x.relearn && on_held_card(cfg, x) && x.sched_r_micro is Some;
    let with_probe = |l: usize, x: Review| probe(x) && x.sched_r_micro is Some;
    let without = |l: usize, x: Review| original(x) && x.sched_r_micro is Some;
    lemma_count(runs, Arm::On, with_probe);
    lemma_count(runs, Arm::On, without);
    let (a, b) = (spots(runs, Arm::On, with_probe), spots(runs, Arm::On, without));
    assert(spots(runs, Arm::On, all) =~= a + b);
    vstd::set_lib::lemma_set_disjoint_lens(a, b);
}

/// A recall test more of a held-back card with a forecast adds its row: to the rows
/// of the probe where it showed the probe, to those of the original card where it
/// showed that, and in either case to those of all. Any other adds none.
pub proof fn a_test_more_adds_its_row(recalls: Seq<Recall>, r: Recall, micro: u32)
    requires
        r.review.sched_r_micro == Some(micro),
    ensures
        ({
            let row = Row { forecast_micro: micro, passed: r.review.passed };
            let more = recalls.push(r);
            &&& rows_of(more, held_any()) == if r.held {
                rows_of(recalls, held_any()).push(row)
            } else {
                rows_of(recalls, held_any())
            }
            &&& rows_of(more, held_shown(true)) == if r.held && r.review.probe_shown {
                rows_of(recalls, held_shown(true)).push(row)
            } else {
                rows_of(recalls, held_shown(true))
            }
            &&& rows_of(more, held_shown(false)) == if r.held && !r.review.probe_shown {
                rows_of(recalls, held_shown(false)).push(row)
            } else {
                rows_of(recalls, held_shown(false))
            }
        }),
{
    lemma_row_more(recalls, r, held_any());
    lemma_row_more(recalls, r, held_shown(true));
    lemma_row_more(recalls, r, held_shown(false));
}

proof fn lemma_row_more(recalls: Seq<Recall>, r: Recall, s: Selection)
    requires
        r.review.sched_r_micro is Some,
    ensures
        rows_of(recalls.push(r), s) == if s.admits(r) {
            rows_of(recalls, s).push(
                Row { forecast_micro: r.review.sched_r_micro->0, passed: r.review.passed },
            )
        } else {
            rows_of(recalls, s)
        },
{
    reveal(Seq::filter);
    let more = recalls.push(r);
    assert(more.drop_last() =~= recalls);
    let before = rows_of(recalls, s);
    if s.admits(r) {
        assert(rows_of(more, s) =~= before.push(
            Row { forecast_micro: r.review.sched_r_micro->0, passed: r.review.passed },
        ));
    }
}

} // verus!
