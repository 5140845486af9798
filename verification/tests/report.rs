use ablation::calibration::calibration;
use ablation::calibration::Row;
use ablation::config::AblationConfig;
use ablation::config::Arm;
use ablation::leakage::CorpusCard;
use ablation::number::Double;
use ablation::provenance::probe_generators;
use ablation::provenance::sort_dedup;
use ablation::report::compare_arms;
use ablation::report::first_difference;
use ablation::report::heldback_split;
use ablation::report::run;
use ablation::report::verdict;
use ablation::report::ArmRun;
use ablation::report::EmptyCorpus;
use ablation::report::Scores;
use ablation::report::Tally;
use ablation::session::Review;

fn review(day: u32, card: usize, passed: bool) -> Review {
    Review {
        day,
        card,
        first_exposure: false,
        relearn: false,
        probe_shown: false,
        passed,
        sched_r_micro: Some(900_000),
        interval_after: 1,
        due_after: 1,
        stability_after_bits: 0,
    }
}

fn arm_run(arm: Arm, learner: usize, reviews: Vec<Review>, probes: usize) -> ArmRun {
    ArmRun { arm, learner, reviews, probes_in_collection: probes }
}

fn row(forecast_micro: u32, passed: bool) -> Row {
    Row { forecast_micro, passed }
}

fn strings(list: &[&str]) -> Vec<String> {
    list.iter().map(|s| s.to_string()).collect()
}

#[test]
fn rows_are_scored_in_the_order_of_their_forecasts() {
    let a = vec![row(900_000, true), row(800_000, true), row(900_000, false), row(800_000, true)];
    let c = calibration(&a).unwrap();
    assert_eq!(c.n, 4);
    assert_eq!(c.passes, 3);
    assert_eq!(
        c.rows,
        vec![row(800_000, true), row(800_000, true), row(900_000, false), row(900_000, true)]
    );
    // the order that doubles and their bit patterns give
    let mut doubles: Vec<(u64, bool)> =
        a.iter().map(|r| ((r.forecast_micro as f64 / 1e6).to_bits(), r.passed)).collect();
    doubles.sort();
    let again: Vec<(u64, bool)> =
        c.rows.iter().map(|r| ((r.forecast_micro as f64 / 1e6).to_bits(), r.passed)).collect();
    assert_eq!(doubles, again);
    // and the same from any serving order
    let b = vec![a[3], a[2], a[1], a[0]];
    assert_eq!(calibration(&b).unwrap().rows, c.rows);
    assert!(calibration(&vec![]).is_none());
}

#[test]
fn generators_are_named_once_and_in_order() {
    let found = probe_generators(&strings(&[
        r#"{"generator":"zeta","model":"m"}"#,
        r#"{"generator":"alpha"}"#,
        "not json",
        r#"{"generator":5}"#,
        r#"["generator"]"#,
        r#"{"other":"alpha"}"#,
        r#"{"generator":"zeta"}"#,
        r#"{"generator":"first","generator":"last"}"#,
        r#"{"generator":"ä"}"#,
        "",
    ]));
    assert_eq!(found, strings(&["alpha", "last", "zeta", "ä"]));
    assert!(probe_generators(&vec![]).is_empty());
}

#[test]
fn sorting_texts_is_that_of_strings() {
    let list = strings(&["b", "", "ab", "a", "b", "ä", "z", "\u{ffff}", "\u{10000}", "ab", "a b"]);
    let mut expected = list.clone();
    expected.sort();
    expected.dedup();
    assert_eq!(sort_dedup(&list), expected);
}

#[test]
fn every_nth_card_is_held_back() {
    assert_eq!(heldback_split(6, 5), vec![true, false, false, false, false, true]);
    assert_eq!(heldback_split(3, 1), vec![true, true, true]);
    assert!(heldback_split(0, 0).is_empty());
}

#[test]
fn records_part_where_they_first_differ() {
    let a = vec![review(0, 0, true), review(1, 0, true), review(2, 0, true)];
    assert_eq!(first_difference(&a, &a), None);
    let b = vec![a[0], review(1, 0, false), a[2]];
    assert_eq!(first_difference(&a, &b), Some(1));
    let shorter = vec![a[0], a[1]];
    assert_eq!(first_difference(&a, &shorter), Some(2));
    assert_eq!(first_difference(&vec![], &a), Some(0));
    assert_eq!(first_difference(&vec![], &vec![]), None);
}

#[test]
fn the_first_learner_whose_arms_part_is_reported() {
    let same = vec![review(0, 0, true), review(1, 0, true)];
    let other = vec![review(0, 0, true), review(1, 0, false)];
    let short = vec![review(0, 0, true)];
    let equal = vec![
        arm_run(Arm::Stock, 0, same.clone(), 0),
        arm_run(Arm::Off, 0, same.clone(), 2),
        arm_run(Arm::On, 0, other.clone(), 2),
    ];
    let e = compare_arms(&equal, 1);
    assert!(e.identical);
    assert_eq!(e.first_divergence, None);
    let parted = vec![
        arm_run(Arm::Stock, 0, same.clone(), 0),
        arm_run(Arm::Stock, 1, same.clone(), 0),
        arm_run(Arm::Stock, 2, same.clone(), 0),
        arm_run(Arm::Off, 0, same.clone(), 0),
        arm_run(Arm::Off, 1, short.clone(), 0),
        arm_run(Arm::Off, 2, other.clone(), 0),
    ];
    let e = compare_arms(&parted, 3);
    assert!(!e.identical);
    let d = e.first_divergence.unwrap();
    assert_eq!((d.learner, d.review_index), (1, 1));
    assert_eq!(d.stock, Some(same[1]));
    assert_eq!(d.off, None);
    assert!(compare_arms(&parted, 1).identical);
}

fn corpus() -> Vec<CorpusCard> {
    (0..3)
        .map(|i| CorpusCard {
            card_q: format!("what is the number of the thing called {i}"),
            probes: vec![(format!("say how many make {i}"), format!("word{i}"))],
        })
        .collect()
}

#[test]
fn runs_add_up_to_their_report() {
    let cfg = AblationConfig {
        learners: 2,
        heldback_every: 2,
        ..AblationConfig::default()
    };
    // cards 0 and 2 are held back; learner 0 knows card 1 by rote, learner 1 card 2
    let rote = vec![vec![false, true, false], vec![false, false, true]];
    let first = Review { first_exposure: true, ..review(0, 1, true) };
    let relearn = Review { relearn: true, ..review(2, 1, true) };
    let off0 = vec![first, review(1, 0, true), review(1, 1, false), relearn];
    let off1 = vec![
        Review { sched_r_micro: None, ..review(3, 2, true) },
        Review { sched_r_micro: Some(700_000), ..review(4, 2, false) },
    ];
    let on0 = vec![
        review(1, 0, true),
        Review { probe_shown: true, ..review(2, 0, false) },
        Review { probe_shown: true, sched_r_micro: Some(850_000), ..review(3, 1, true) },
        Review { probe_shown: true, sched_r_micro: Some(849_999), ..review(4, 1, true) },
        first,
        relearn,
    ];
    let on1 = vec![
        Review { probe_shown: true, sched_r_micro: None, ..review(1, 2, false) },
        review(2, 2, false),
    ];
    let runs = vec![
        arm_run(Arm::Stock, 0, off0.clone(), 0),
        arm_run(Arm::Stock, 1, off1.clone(), 0),
        arm_run(Arm::Off, 0, off0.clone(), 3),
        arm_run(Arm::Off, 1, off1.clone(), 3),
        arm_run(Arm::On, 0, on0.clone(), 5),
        arm_run(Arm::On, 1, on1.clone(), 4),
    ];
    let records = strings(&[r#"{"generator":"unit-test"}"#]);
    let r = run(&cfg, &corpus(), &records, &rote, &runs).unwrap();
    assert_eq!(r.probe_generators, strings(&["unit-test"]));
    assert_eq!(r.n_cards, 3);
    assert!(r.equivalence.identical);
    assert!(r.leakage.passed);
    assert!(r.run_valid);
    assert_eq!(
        (r.off.recall_reviews, r.off.relearning_steps, r.off.probe_served_reviews, r.off.passes),
        (4, 1, 0, 2)
    );
    assert_eq!((r.stock.recall_reviews, r.stock.probes_in_collection), (4, 0));
    assert_eq!(
        (r.on.recall_reviews, r.on.relearning_steps, r.on.probe_served_reviews, r.on.passes),
        (6, 1, 4, 3)
    );
    // the last run of an arm says how many probes there were
    assert_eq!(r.on.probes_in_collection, 4);
    assert_eq!(r.off.probes_in_collection, 3);
    assert_eq!(r.high_r_original, Tally { passes: 1, n: 2 });
    // 0.85 in single precision lies above 850000 millionths
    assert_eq!(r.high_r_probe, Tally { passes: 0, n: 1 });
    assert_eq!(r.off_understood, Tally { passes: 1, n: 1 });
    assert_eq!(r.off_rote, Tally { passes: 1, n: 3 });
    assert_eq!(r.on_probe_understood, Tally { passes: 0, n: 1 });
    assert_eq!(r.on_probe_rote, Tally { passes: 2, n: 3 });
    assert_eq!(r.off_card_rows, vec![row(900_000, true), row(700_000, false)]);
    assert_eq!(r.on_probe_rows, vec![row(900_000, false)]);
    assert_eq!(r.on_original_rows, vec![row(900_000, true), row(900_000, false)]);
    // every recall test is either of a rote card or of an understood one
    assert_eq!(r.off_understood.n + r.off_rote.n, r.off.recall_reviews);
    assert_eq!(r.on_probe_understood.n + r.on_probe_rote.n, r.on.probe_served_reviews);
}

#[test]
fn a_corpus_without_cards_is_refused() {
    let r = run(&AblationConfig::default(), &vec![], &vec![], &vec![], &vec![]);
    assert_eq!(r.unwrap_err(), EmptyCorpus);
}

#[test]
fn divergence_or_contamination_invalidates_a_run() {
    let cfg = AblationConfig { learners: 1, heldback_every: 2, ..AblationConfig::default() };
    let rote = vec![vec![false, false, false]];
    let a = vec![review(0, 0, true)];
    let b = vec![review(0, 0, false)];
    let parted = vec![arm_run(Arm::Stock, 0, a.clone(), 0), arm_run(Arm::Off, 0, b, 0)];
    let r = run(&cfg, &corpus(), &vec![], &rote, &parted).unwrap();
    assert!(!r.run_valid && r.leakage.passed);
    let equal = vec![arm_run(Arm::Stock, 0, a.clone(), 0), arm_run(Arm::Off, 0, a, 0)];
    let mut leaky = corpus();
    leaky[1].probes[0].0 = leaky[0].card_q.to_uppercase();
    let r = run(&cfg, &leaky, &vec![], &rote, &equal).unwrap();
    assert!(!r.run_valid && !r.leakage.passed && r.equivalence.identical);
}

fn double(x: f64) -> Double {
    Double { bits: x.to_bits() }
}

fn scores(gap: f64, gap_low: f64, probe: Option<f64>, card: Option<f64>) -> Scores {
    Scores {
        gap: double(gap),
        gap_low: double(gap_low),
        probe_brier: probe.map(double),
        card_brier: card.map(double),
    }
}

#[test]
fn the_claim_stands_only_on_evidence() {
    let good = scores(0.2, 0.1, Some(0.3), Some(0.1));
    let v = verdict(true, &good);
    assert!(v.run_valid && !v.falsified_by_gap && !v.falsified_by_brier && v.claim_supported);
    assert!(!verdict(false, &good).claim_supported);
    assert!(verdict(true, &scores(0.049, 0.01, Some(0.3), Some(0.1))).falsified_by_gap);
    assert!(!verdict(true, &scores(0.05, 0.01, Some(0.3), Some(0.1))).falsified_by_gap);
    assert!(verdict(true, &scores(0.2, 0.0, Some(0.3), Some(0.1))).falsified_by_gap);
    assert!(verdict(true, &scores(0.2, -0.1, Some(0.3), Some(0.1))).falsified_by_gap);
    assert!(verdict(true, &scores(f64::NAN, 0.1, Some(0.3), Some(0.1))).falsified_by_gap);
    assert!(verdict(true, &scores(0.2, 0.1, Some(0.1), Some(0.1))).falsified_by_brier);
    assert!(verdict(true, &scores(0.2, 0.1, Some(0.05), Some(0.1))).falsified_by_brier);
    assert!(verdict(true, &scores(0.2, 0.1, None, Some(0.1))).falsified_by_brier);
    assert!(verdict(true, &scores(0.2, 0.1, Some(0.3), None)).falsified_by_brier);
    assert!(!verdict(true, &scores(0.2, 0.1, None, None)).claim_supported);
}

#[test]
fn the_gap_is_measured_on_heldback_cards() {
    let cfg = AblationConfig { learners: 1, heldback_every: 2, ..AblationConfig::default() };
    let rote = vec![vec![false, false, false]];
    // card 1 is not held back: at high retrievability, passed and failed, both ways shown
    let other = vec![
        review(1, 1, true),
        review(2, 1, false),
        Review { probe_shown: true, ..review(3, 1, true) },
        Review { probe_shown: true, ..review(4, 1, false) },
    ];
    let held = vec![review(5, 0, true), Review { probe_shown: true, ..review(6, 2, false) }];
    let with = |on: Vec<Review>| {
        let runs = vec![
            arm_run(Arm::Stock, 0, vec![], 0),
            arm_run(Arm::Off, 0, vec![], 0),
            arm_run(Arm::On, 0, on, 3),
        ];
        run(&cfg, &corpus(), &vec![], &rote, &runs).unwrap()
    };
    let r = with(other.clone());
    assert_eq!(r.high_r_original, Tally { passes: 0, n: 0 });
    assert_eq!(r.high_r_probe, Tally { passes: 0, n: 0 });
    assert_eq!((r.on.recall_reviews, r.on.probe_served_reviews, r.on.passes), (4, 2, 2));
    let r = with(other.into_iter().chain(held).collect());
    assert_eq!(r.high_r_original, Tally { passes: 1, n: 1 });
    assert_eq!(r.high_r_probe, Tally { passes: 0, n: 1 });
}
