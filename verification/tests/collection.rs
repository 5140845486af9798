use ablation::collection::advance_one_day;
use ablation::collection::all_cards;
use ablation::collection::read_corpus;
use ablation::collection::seconds_since_review;
use ablation::collection::Card;
use ablation::collection::Collection;
use ablation::collection::Note;
use ablation::collection::NoteNotFound;
use ablation::collection::Probe;

fn card(id: i64, note_id: i64) -> Card {
    Card {
        id,
        note_id,
        interval: 0,
        due: 0,
        last_review_time: None,
        stability_bits: None,
    }
}

fn note(id: i64, fields: &[&str]) -> Note {
    Note { id, fields: fields.iter().map(|f| f.to_string()).collect() }
}

fn probe(card_id: i64, question: &str, answer: &str) -> Probe {
    Probe {
        card_id,
        question: question.to_string(),
        answer: answer.to_string(),
    }
}

fn sample() -> Collection {
    Collection {
        creation_stamp: 1_000_000_000,
        cards: vec![card(100_001, 11), card(100_000, 10), card(100_002, 12)],
        notes: vec![note(12, &["q2", "a2"]), note(10, &["q0", "a0"]), note(11, &["q1"])],
        probes: vec![
            probe(100_001, "p1", "x"),
            probe(100_000, "p0", "y"),
            probe(100_001, "p1b", "z"),
        ],
    }
}

#[test]
fn cards_come_in_the_order_of_their_ids() {
    let ids: Vec<i64> = all_cards(&sample()).iter().map(|c| c.id).collect();
    assert_eq!(ids, vec![100_000, 100_001, 100_002]);
}

#[test]
fn the_corpus_holds_questions_and_stored_probes() {
    let corpus = read_corpus(&sample()).unwrap();
    assert_eq!(corpus.len(), 3);
    assert_eq!(corpus[0].card_q, "q0");
    assert_eq!(corpus[0].probes, vec![("p0".to_string(), "y".to_string())]);
    assert_eq!(corpus[1].card_q, "q1");
    assert_eq!(
        corpus[1].probes,
        vec![("p1".to_string(), "x".to_string()), ("p1b".to_string(), "z".to_string())]
    );
    assert_eq!(corpus[2].card_q, "q2");
    assert!(corpus[2].probes.is_empty());
}

#[test]
fn a_missing_note_is_an_error_of_the_first_card_that_lacks_it() {
    let mut col = sample();
    col.cards.push(card(99, 7));
    col.cards.push(card(98, 8));
    assert_eq!(read_corpus(&col).unwrap_err(), NoteNotFound { note_id: 8 });
}

#[test]
fn a_day_moves_times_back_and_leaves_day_numbers() {
    let mut col = sample();
    col.cards[0].last_review_time = Some(1_500_000_000);
    col.cards[0].due = 17;
    col.cards[1].due = 1_000_000;
    col.cards[2].due = 999_999;
    let changed = advance_one_day(&mut col);
    assert_eq!(col.creation_stamp, 1_000_000_000 - 86_400);
    assert_eq!(col.cards[0].last_review_time, Some(1_500_000_000 - 86_400));
    assert_eq!(col.cards[0].due, 17);
    assert_eq!(col.cards[1].due, 1_000_000 - 86_400);
    assert_eq!(col.cards[2].due, 999_999);
    assert_eq!(changed, vec![col.cards[1], col.cards[0]]);
    // the age of the review at the creation stamp is what it was
    assert_eq!(col.cards[0].last_review_time.unwrap() - col.creation_stamp, 500_000_000);
}

#[test]
fn the_age_of_a_review_needs_a_memory_and_is_never_negative() {
    let mut c = card(100_000, 10);
    assert_eq!(seconds_since_review(&c, 500), None);
    c.last_review_time = Some(400);
    assert_eq!(seconds_since_review(&c, 500), None);
    c.stability_bits = Some(1);
    assert_eq!(seconds_since_review(&c, 500), Some(100));
    assert_eq!(seconds_since_review(&c, 300), Some(0));
    c.last_review_time = None;
    assert_eq!(seconds_since_review(&c, 500), None);
}

#[test]
fn only_notes_that_are_read_need_a_field() {
    let mut col = sample();
    col.notes.push(note(77, &[]));
    assert_eq!(read_corpus(&col).unwrap().len(), 3);
    // reading ends at the first card whose note is missing
    col.cards.push(card(99, 7));
    col.cards.push(card(100_003, 77));
    assert_eq!(read_corpus(&col).unwrap_err(), NoteNotFound { note_id: 7 });
}

#[test]
fn without_a_memory_the_times_do_not_matter() {
    let mut c = card(100_000, 10);
    c.last_review_time = Some(i64::MIN);
    assert_eq!(seconds_since_review(&c, i64::MAX), None);
}
