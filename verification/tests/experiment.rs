//! A whole experiment, with a small scheduler in place of a collection's own.

use ablation::collection::read_corpus;
use ablation::collection::Card;
use ablation::collection::Collection;
use ablation::collection::Note;
use ablation::collection::Probe;
use ablation::config::arm_setup;
use ablation::config::schedule;
use ablation::config::AblationConfig;
use ablation::config::Arm;
use ablation::config::FIRST_CARD_ID;
use ablation::corpus::emit_corpus_collection;
use ablation::corpus::renumber;
use ablation::number::Double;
use ablation::report::run;
use ablation::report::ArmRun;
use ablation::report::RunReport;
use ablation::session::grade;
use ablation::session::learned_by_rote;
use ablation::session::memory_rng;
use ablation::session::ArmSession;
use ablation::session::Outcome;
use ablation::session::QueueKind;
use ablation::session::Served;
use ablation::stream::rng_for;
use rand::Rng;

fn double(x: f64) -> Double {
    Double { bits: x.to_bits() }
}

struct Memory {
    stability: f32,
    growth: f32,
    transfer: f64,
    rote: bool,
}

fn new_memory(cfg: &AblationConfig, learner: usize, card: usize) -> Memory {
    let mut rng = memory_rng(cfg, learner, card);
    let ability: f32 = rng.random_range(0.8..1.25);
    let rote = learned_by_rote(cfg, double(rng.random_range(0.0..1.0)));
    let transfer = if rote {
        rng.random_range(0.05..0.35)
    } else {
        rng.random_range(0.65..0.95)
    };
    Memory {
        stability: rng.random_range(0.5..4.0) * ability,
        growth: rng.random_range(1.6..3.2) * ability,
        transfer,
        rote,
    }
}

fn retrievability(stability: f32, days: u32) -> f32 {
    fsrs::current_retrievability(
        fsrs::MemoryState { stability, difficulty: 5.0 },
        days as f32,
        fsrs::FSRS5_DEFAULT_DECAY,
    )
}

/// What the small scheduler knows of a card.
#[derive(Clone, Copy)]
struct Slot {
    introduced: bool,
    due: u32,
    interval: u32,
    last: u32,
    stability: f32,
}

fn study(
    cfg: &AblationConfig,
    session: &mut ArmSession,
    memories: &mut Vec<Option<Memory>>,
    learner: usize,
    s: &Served,
) -> (bool, ablation::session::Turn) {
    assert!(session.can_serve(s));
    let turn = session.serve(s).unwrap();
    let outcome = if turn.first_exposure {
        memories[turn.card] = Some(new_memory(cfg, learner, turn.card));
        None
    } else {
        let mem = memories[turn.card].as_ref().unwrap();
        let r_true = retrievability(mem.stability, turn.elapsed) as f64;
        let draw: f64 = session.outcome_rng(turn.card).random_range(0.0..1.0);
        Some(Outcome {
            draw: double(draw),
            card_chance: double(r_true),
            probe_chance: double(mem.transfer * r_true),
        })
    };
    let passed = grade(&turn, &outcome);
    if !turn.first_exposure {
        let mem = memories[turn.card].as_mut().unwrap();
        mem.stability = if passed {
            (mem.stability * mem.growth).min(36_500.0)
        } else {
            (mem.stability * 0.3).max(0.25)
        };
    }
    (passed, turn)
}

fn run_arm(cfg: &AblationConfig, arm: Arm, learner: usize, n: usize, probes: usize) -> ArmRun {
    let setup = arm_setup(cfg, arm);
    let rate = f32::from_bits(setup.probe_rate.bits) as f64;
    let threshold = f32::from_bits(setup.probe_threshold.bits);
    let probes_in_collection = if setup.drop_probes { 0 } else { probes };
    let mut slots = vec![
        Slot { introduced: false, due: 0, interval: 0, last: 0, stability: 0.0 };
        n
    ];
    let mut memories: Vec<Option<Memory>> = (0..n).map(|_| None).collect();
    let mut session = ArmSession::new(cfg, learner, n);
    while let Some(start) = session.start_day() {
        let day = start.day;
        let mut queue: Vec<(usize, QueueKind)> = (0..n)
            .filter(|&i| slots[i].introduced && slots[i].due <= day)
            .map(|i| (i, QueueKind::Review))
            .collect();
        let fresh: Vec<(usize, QueueKind)> = (0..n)
            .filter(|&i| !slots[i].introduced)
            .take(setup.new_per_day as usize)
            .map(|i| (i, QueueKind::New))
            .collect();
        queue.extend(fresh);
        let mut next = 0;
        while next < queue.len() {
            let (i, kind) = queue[next];
            next += 1;
            let r = if slots[i].introduced {
                Some(retrievability(slots[i].stability, day - slots[i].last))
            } else {
                None
            };
            let coin: f64 =
                rng_for(cfg.seed, "coin", &[i as u64, day as u64]).random_range(0.0..1.0);
            let substitutes = probes_in_collection > 0
                && kind == QueueKind::Review
                && r.is_some_and(|r| r >= threshold)
                && coin < rate;
            let s = Served {
                card_id: FIRST_CARD_ID + i as i64,
                kind,
                probe: if substitutes { Some(i as i64) } else { None },
                sched_r_micro: r.map(|r| (r * 1e6) as u32),
            };
            let (passed, turn) = study(cfg, &mut session, &mut memories, learner, &s);
            let slot = &mut slots[i];
            if passed {
                slot.interval = (slot.interval * 2).max(1);
                slot.stability = (slot.stability * 2.0).max(2.0);
            } else {
                slot.interval = 1;
                slot.stability = (slot.stability * 0.5).max(0.5);
                queue.push((i, QueueKind::Learning));
            }
            slot.introduced = true;
            slot.due = day + slot.interval;
            slot.last = day;
            let after = Card {
                id: s.card_id,
                note_id: 0,
                interval: slot.interval,
                due: slot.due as i32,
                last_review_time: None,
                stability_bits: Some(slot.stability.to_bits()),
            };
            session.record(turn, passed, &after);
        }
    }
    ArmRun { arm, learner, reviews: session.finish(), probes_in_collection }
}

fn corpus_collection(cfg: &AblationConfig) -> Collection {
    let facts = emit_corpus_collection(cfg).unwrap();
    // ids as a clock would give them
    let ids: Vec<i64> = (0..facts.len() as i64).map(|i| 1_700_000_000_000 + 3 * i).collect();
    let mut cards = Vec::new();
    for (new, old) in renumber(&ids) {
        cards.push(Card {
            id: new,
            note_id: old,
            interval: 0,
            due: 0,
            last_review_time: None,
            stability_bits: None,
        });
    }
    Collection {
        creation_stamp: 0,
        cards,
        notes: ids
            .iter()
            .zip(facts)
            .map(|(&id, f)| Note { id, fields: vec![f.question, f.answer] })
            .collect(),
        probes: vec![],
    }
}

fn experiment(cfg: &AblationConfig, col: &Collection, provenances: &Vec<String>) -> RunReport {
    let corpus = read_corpus(col).unwrap();
    let n = corpus.len();
    let rote: Vec<Vec<bool>> = (0..cfg.learners)
        .map(|l| (0..n).map(|c| new_memory(cfg, l, c).rote).collect())
        .collect();
    let runs: Vec<ArmRun> = schedule(cfg.learners)
        .into_iter()
        .map(|(arm, learner)| run_arm(cfg, arm, learner, n, col.probes.len()))
        .collect();
    run(cfg, &corpus, provenances, &rote, &runs).unwrap()
}

#[test]
fn tiny_run_is_deterministic_and_off_equals_stock() {
    let cfg = AblationConfig {
        learners: 2,
        cards: 20,
        days: 25,
        ..Default::default()
    };
    let mut col = corpus_collection(&cfg);
    let mut provenances = Vec::new();
    for i in 0..cfg.cards {
        col.probes.push(Probe {
            card_id: FIRST_CARD_ID + i as i64,
            question: format!("test probe question {i}"),
            answer: format!("test answer {i}"),
        });
        provenances.push(r#"{"generator":"unit-test"}"#.to_string());
    }

    let a = experiment(&cfg, &col, &provenances);
    let b = experiment(&cfg, &col, &provenances);
    assert_eq!(a.equivalence.identical, true, "{:?}", a.equivalence);
    assert_eq!(format!("{:?}", a), format!("{:?}", b));
    // probes were actually served in the on arm
    assert_eq!(a.on.arm.name(), "on");
    assert!(a.on.probe_served_reviews > 0);
    assert_eq!(a.probe_generators, vec!["unit-test".to_string()]);
    // and nowhere else
    assert_eq!(a.stock.probe_served_reviews, 0);
    assert_eq!(a.off.probe_served_reviews, 0);
    assert_eq!(a.stock.probes_in_collection, 0);
    assert_eq!(a.off.probes_in_collection, 20);
}

#[test]
fn another_seed_gives_another_experiment() {
    let cfg = AblationConfig { learners: 1, cards: 20, days: 25, ..Default::default() };
    let other = AblationConfig { seed: 43, ..cfg };
    let a = experiment(&cfg, &corpus_collection(&cfg), &vec![]);
    let b = experiment(&other, &corpus_collection(&other), &vec![]);
    assert_ne!(format!("{:?}", a), format!("{:?}", b));
    assert!(a.equivalence.identical && b.equivalence.identical);
}
