use ablation::collection::Card;
use ablation::config::arm_setup;
use ablation::config::schedule;
use ablation::config::AblationConfig;
use ablation::config::Arm;
use ablation::config::FALSIFICATION;
use ablation::number::Double;
use ablation::session::answer;
use ablation::session::grade;
use ablation::session::learned_by_rote;
use ablation::session::memory_rng;
use ablation::session::ArmSession;
use ablation::session::DayStart;
use ablation::session::Outcome;
use ablation::session::QueueKind;
use ablation::session::Rating;
use ablation::session::RunawayDay;
use ablation::session::Served;
use ablation::stream::rng_for;
use rand::Rng;

fn double(x: f64) -> Double {
    Double { bits: x.to_bits() }
}

fn served(index: i64, kind: QueueKind, probe: Option<i64>) -> Served {
    Served { card_id: 100_000 + index, kind, probe, sched_r_micro: None }
}

fn after(index: i64, due: i32) -> Card {
    Card {
        id: 100_000 + index,
        note_id: 1,
        interval: 3,
        due,
        last_review_time: None,
        stability_bits: Some(0x4000_0000),
    }
}

fn outcome(draw: f64, card_chance: f64, probe_chance: f64) -> Option<Outcome> {
    Some(Outcome {
        draw: double(draw),
        card_chance: double(card_chance),
        probe_chance: double(probe_chance),
    })
}

#[test]
fn arms_have_names_and_setups() {
    assert_eq!(Arm::Stock.name(), "stock");
    assert_eq!(Arm::Off.name(), "off");
    assert_eq!(Arm::On.name(), "on");
    let cfg = AblationConfig::default();
    let stock = arm_setup(&cfg, Arm::Stock);
    let off = arm_setup(&cfg, Arm::Off);
    let on = arm_setup(&cfg, Arm::On);
    assert!(stock.drop_probes && !off.drop_probes && !on.drop_probes);
    assert_eq!(stock.probe_rate.bits, 0.0f32.to_bits());
    assert_eq!(off.probe_rate.bits, 0.0f32.to_bits());
    assert_eq!(on.probe_rate.bits, 0.5f32.to_bits());
    assert_eq!(off.new_per_day, 20);
    assert_eq!(off.reviews_per_day, 9999);
    assert!(on.fsrs && !on.load_balancer && !on.steps);
    assert!(FALSIFICATION.contains("gap<0.05"));
}

#[test]
fn runs_are_made_arm_by_arm() {
    assert_eq!(
        schedule(2),
        vec![
            (Arm::Stock, 0),
            (Arm::Stock, 1),
            (Arm::Off, 0),
            (Arm::Off, 1),
            (Arm::On, 0),
            (Arm::On, 1),
        ]
    );
    assert!(schedule(0).is_empty());
}

#[test]
fn days_start_until_they_run_out() {
    let cfg = AblationConfig { days: 2, ..AblationConfig::default() };
    let mut s = ArmSession::new(&cfg, 0, 3);
    assert_eq!(s.start_day(), Some(DayStart { day: 0, advance: false }));
    assert_eq!(s.start_day(), Some(DayStart { day: 1, advance: true }));
    assert_eq!(s.start_day(), None);
    assert_eq!(s.start_day(), None);
}

#[test]
fn cards_outside_the_corpus_or_unseen_cannot_be_served() {
    let cfg = AblationConfig::default();
    let mut s = ArmSession::new(&cfg, 0, 2);
    s.start_day();
    assert!(s.can_serve(&served(0, QueueKind::New, None)));
    assert!(!s.can_serve(&served(2, QueueKind::New, None)));
    assert!(!s.can_serve(&served(-1, QueueKind::New, None)));
    assert!(!s.can_serve(&served(0, QueueKind::Review, None)));
    assert!(!s.can_serve(&served(0, QueueKind::Learning, None)));
    let turn = s.serve(&served(0, QueueKind::New, None)).unwrap();
    s.record(turn, true, &after(0, 5));
    assert!(s.can_serve(&served(0, QueueKind::Review, None)));
    assert!(!s.can_serve(&served(1, QueueKind::Review, None)));
}

#[test]
fn a_review_is_recorded_as_it_was_served_and_graded() {
    let cfg = AblationConfig::default();
    let mut s = ArmSession::new(&cfg, 0, 2);
    s.start_day();
    // a first exposure shows no probe, even where one is offered
    let t = s.serve(&served(1, QueueKind::New, Some(77))).unwrap();
    assert!(t.first_exposure && !t.probe_shown && !t.relearn);
    assert_eq!(t.elapsed, 0);
    assert!(grade(&t, &None));
    s.record(t, true, &after(1, 7));
    s.start_day();
    s.start_day();
    s.start_day();
    let t = s
        .serve(&Served { sched_r_micro: Some(912_345), ..served(1, QueueKind::Review, Some(77)) })
        .unwrap();
    assert!(!t.first_exposure && t.probe_shown && !t.relearn);
    assert_eq!(t.elapsed, 3);
    assert!(grade(&t, &outcome(0.3, 0.2, 0.4)));
    assert!(!grade(&t, &outcome(0.4, 0.9, 0.4)));
    s.record(t, false, &after(1, 1_700_000_000));
    let t = s.serve(&served(1, QueueKind::Learning, None)).unwrap();
    assert!(t.relearn && !t.probe_shown);
    assert_eq!(t.elapsed, 0);
    assert!(grade(&t, &outcome(0.1, 0.2, 0.05)));
    assert!(!grade(&t, &outcome(0.2, 0.2, 0.9)));
    let unknown = Card { stability_bits: None, ..after(1, 999_999) };
    s.record(t, true, &unknown);
    assert_eq!(s.review_count(), 3);
    let r = s.finish();
    assert_eq!(r.len(), 3);
    assert_eq!((r[0].day, r[0].card, r[0].passed, r[0].due_after), (0, 1, true, 7));
    assert_eq!(r[0].interval_after, 3);
    assert_eq!(r[0].stability_after_bits, 0x4000_0000);
    assert_eq!((r[1].day, r[1].passed, r[1].due_after), (3, false, -1));
    assert_eq!(r[1].sched_r_micro, Some(912_345));
    assert_eq!((r[2].relearn, r[2].due_after, r[2].stability_after_bits), (true, 999_999, 0));
}

#[test]
fn a_runaway_day_is_refused() {
    let cfg = AblationConfig::default();
    let mut s = ArmSession::new(&cfg, 0, 1);
    s.start_day();
    s.start_day();
    for _ in 0..10_000 {
        assert!(!s.day_is_full());
        assert!(s.serve(&served(0, QueueKind::New, None)).is_ok());
    }
    assert!(s.day_is_full());
    assert_eq!(s.serve(&served(0, QueueKind::New, None)), Err(RunawayDay { day: 1 }));
    s.start_day();
    assert!(s.serve(&served(0, QueueKind::New, None)).is_ok());
}

#[test]
fn outcomes_are_drawn_by_learner_card_and_event() {
    let cfg = AblationConfig::default();
    let mut s = ArmSession::new(&cfg, 3, 5);
    s.start_day();
    for k in 0..4u64 {
        let mut a = s.outcome_rng(2);
        let mut b = rng_for(42, "outcome", &[3, 2, k]);
        assert_eq!(a.random::<u64>(), b.random::<u64>());
        let t = s.serve(&served(2, QueueKind::New, None)).unwrap();
        s.record(t, true, &after(2, 1));
        // another card's reviews change nothing
        let t = s.serve(&served(4, QueueKind::New, None)).unwrap();
        s.record(t, true, &after(4, 1));
    }
}

#[test]
fn memories_are_drawn_by_learner_and_card() {
    let cfg = AblationConfig::default();
    let mut a = memory_rng(&cfg, 3, 9);
    let mut b = rng_for(42, "learner", &[3, 9]);
    assert_eq!(a.random::<u64>(), b.random::<u64>());
    assert!(learned_by_rote(&cfg, double(0.39)));
    assert!(!learned_by_rote(&cfg, double(0.4)));
    assert!(!learned_by_rote(&cfg, double(0.41)));
}

#[test]
fn the_order_within_a_day_leaves_no_trace() {
    let cfg = AblationConfig::default();
    let mut records = Vec::new();
    for order in [[0i64, 1, 2], [2, 0, 1], [1, 2, 0]] {
        let mut s = ArmSession::new(&cfg, 0, 3);
        s.start_day();
        for i in order {
            let t = s.serve(&served(i, QueueKind::New, None)).unwrap();
            s.record(t, true, &after(i, 1));
        }
        s.start_day();
        for i in order {
            for pass in [false, true] {
                let t = s.serve(&served(i, QueueKind::Review, None)).unwrap();
                s.record(t, pass, &after(i, i as i32 + 1_000_000 * (pass as i32)));
            }
        }
        records.push(s.finish());
    }
    assert_eq!(records[0], records[1]);
    assert_eq!(records[0], records[2]);
    let keys: Vec<(u32, usize, bool)> =
        records[0].iter().map(|r| (r.day, r.card, r.passed)).collect();
    assert_eq!(
        keys,
        vec![
            (0, 0, true),
            (0, 1, true),
            (0, 2, true),
            (1, 0, false),
            (1, 0, true),
            (1, 1, false),
            (1, 1, true),
            (1, 2, false),
            (1, 2, true),
        ]
    );
}

#[test]
fn answers_carry_the_grade_and_the_probe() {
    let s = served(1, QueueKind::Review, Some(5));
    let a = answer(&s, true);
    assert_eq!(a.card_id, 100_001);
    assert_eq!(a.rating, Rating::Good);
    assert_eq!(a.variant_id, Some(5));
    assert_eq!((a.milliseconds_taken, a.milliseconds_to_reveal, a.from_queue), (3000, 1500, true));
    assert_eq!(answer(&s, false).rating, Rating::Again);
}

#[test]
fn rote_grows_with_its_fraction() {
    let cfg = |f: f64| AblationConfig { rote_fraction: double(f), ..AblationConfig::default() };
    let draws = [0.0, f64::MIN_POSITIVE, 0.2, 0.5, 0.999_999, 1.0 - f64::EPSILON / 2.0];
    let fractions = [f64::NEG_INFINITY, -0.5, -0.0, 0.0, 0.2, 0.5, 1.0, 2.0, f64::INFINITY];
    for d in draws {
        let rote: Vec<bool> =
            fractions.iter().map(|f| learned_by_rote(&cfg(*f), double(d))).collect();
        assert!(rote.windows(2).all(|w| !w[0] || w[1]));
        assert_eq!(rote[..4], [false, false, false, false]);
        assert_eq!(rote[6..], [true, true, true]);
        for f in fractions {
            let mut a = memory_rng(&cfg(f), 1, 2);
            let mut b = memory_rng(&cfg(0.4), 1, 2);
            assert_eq!(a.random::<u64>(), b.random::<u64>());
        }
    }
}

#[test]
fn a_record_keeps_to_its_days_cards_and_limit() {
    let cfg = AblationConfig { days: 3, ..AblationConfig::default() };
    let mut s = ArmSession::new(&cfg, 0, 2);
    while s.start_day().is_some() {
        let mut k = 0i64;
        while !s.day_is_full() {
            let next = served(k % 2, if k < 2 { QueueKind::New } else { QueueKind::Learning }, None);
            let t = s.serve(&next).unwrap();
            s.record(t, t.first_exposure || k % 3 == 0, &after(k % 2, 999_999 + (k % 2) as i32));
            k += 1;
            if k == 600 {
                break;
            }
        }
    }
    let r = s.finish();
    assert_eq!(r.len(), 1800);
    assert!(r.iter().all(|r| r.day < 3 && r.card < 2 && r.due_after < 1_000_000));
    assert!(r.iter().all(|r| !r.first_exposure || (r.passed && !r.relearn && !r.probe_shown)));
    for (i, x) in r.iter().enumerate() {
        let studied = r[..i].iter().any(|y| y.card == x.card && y.first_exposure);
        assert!(x.first_exposure || studied);
    }
    for day in 0..3 {
        assert_eq!(r.iter().filter(|r| r.day == day).count(), 600);
    }
}
