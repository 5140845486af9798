use std::collections::HashSet;

use ablation::config::AblationConfig;
use ablation::corpus::emit_corpus_collection;
use ablation::corpus::facts_about;
use ablation::corpus::fill;
use ablation::corpus::pseudoword;
use ablation::corpus::renumber;
use ablation::corpus::spell;
use ablation::stream::rng_for;
use rand::rngs::StdRng;
use rand::Rng;

const ONSET: [&str; 17] = [
    "b", "d", "f", "g", "k", "l", "m", "n", "p", "r", "s", "t", "v", "z", "br", "st", "tr",
];
const NUCLEUS: [&str; 9] = ["a", "e", "i", "o", "u", "ai", "or", "an", "el"];
const TEMPLATES: [&str; 5] = [
    "What is the capital of {s}?",
    "Which element does the symbol {s} stand for?",
    "What does the enzyme {s} catalyse?",
    "In which year was the Treaty of {s} signed?",
    "What is the currency of {s}?",
];

fn expected_word(rng: &mut StdRng, syllables: usize) -> String {
    let mut w = String::new();
    for _ in 0..syllables {
        w.push_str(ONSET[rng.random_range(0..ONSET.len())]);
        w.push_str(NUCLEUS[rng.random_range(0..NUCLEUS.len())]);
    }
    let mut c = w.chars();
    c.next()
        .map(|f| f.to_uppercase().collect::<String>() + c.as_str())
        .unwrap_or_default()
}

fn expected_fresh(rng: &mut StdRng, syllables: usize, used: &mut HashSet<String>) -> String {
    loop {
        let w = expected_word(rng, syllables);
        if used.insert(w.clone()) {
            return w;
        }
    }
}

#[test]
fn words_are_drawn_syllable_by_syllable() {
    for i in 0..300u64 {
        for syllables in 0..4usize {
            let mut a = rng_for(7, "corpus", &[i]);
            let mut b = rng_for(7, "corpus", &[i]);
            for _ in 0..3 {
                assert_eq!(pseudoword(&mut a, syllables), expected_word(&mut b, syllables));
            }
        }
    }
}

#[test]
fn no_syllables_make_the_empty_word() {
    let mut rng = rng_for(1, "corpus", &[0]);
    assert_eq!(pseudoword(&mut rng, 0), "");
}

#[test]
fn the_slot_is_filled_wherever_it_stands() {
    assert_eq!(fill("What is the capital of {s}?", "Xanadu"), "What is the capital of Xanadu?");
    assert_eq!(fill("{s} and {s}", "a"), "a and a");
    assert_eq!(fill("{{s}}", "x"), "{x}");
    assert_eq!(fill("{s", "x"), "{s");
    assert_eq!(fill("", "x"), "");
    assert_eq!(fill("{s}", "{s}"), "{s}");
    for t in TEMPLATES {
        assert_eq!(fill(t, "Brai"), t.replace("{s}", "Brai"));
    }
}

#[test]
fn the_corpus_is_the_one_that_its_seed_gives() {
    for seed in [42u64, 1, u64::MAX] {
        let cfg = AblationConfig { seed, cards: 400, ..AblationConfig::default() };
        let facts = emit_corpus_collection(&cfg).unwrap();
        assert_eq!(facts.len(), 400);
        let mut used = HashSet::new();
        for (i, fact) in facts.iter().enumerate() {
            let mut rng = rng_for(seed, "corpus", &[i as u64]);
            let subject = expected_fresh(&mut rng, 3, &mut used);
            let object = expected_fresh(&mut rng, 2, &mut used);
            assert_eq!(fact.question, TEMPLATES[i % TEMPLATES.len()].replace("{s}", &subject));
            assert_eq!(fact.answer, object);
        }
    }
}

#[test]
fn facts_are_distinct_and_smaller_corpora_are_prefixes() {
    let large = emit_corpus_collection(&AblationConfig { cards: 300, ..AblationConfig::default() })
        .unwrap();
    let small = emit_corpus_collection(&AblationConfig { cards: 120, ..AblationConfig::default() })
        .unwrap();
    let answers: HashSet<&String> = large.iter().map(|f| &f.answer).collect();
    let questions: HashSet<&String> = large.iter().map(|f| &f.question).collect();
    assert_eq!(answers.len(), 300);
    assert_eq!(questions.len(), 300);
    for (a, b) in small.iter().zip(&large) {
        assert_eq!(a.question, b.question);
        assert_eq!(a.answer, b.answer);
    }
}

#[test]
fn an_empty_corpus_has_no_facts() {
    let cfg = AblationConfig { cards: 0, ..AblationConfig::default() };
    assert!(emit_corpus_collection(&cfg).unwrap().is_empty());
}

#[test]
fn cards_are_renumbered_in_order() {
    let pairs = renumber(&vec![1_700_000_000_300, 1_700_000_000_100, 1_700_000_000_200]);
    assert_eq!(
        pairs,
        vec![
            (100_000, 1_700_000_000_100),
            (100_001, 1_700_000_000_200),
            (100_002, 1_700_000_000_300),
        ]
    );
    assert!(renumber(&vec![]).is_empty());
    assert_eq!(renumber(&vec![100_005, 100_001]), vec![(100_000, 100_001), (100_001, 100_005)]);
}

#[test]
fn syllables_spell_a_word() {
    assert_eq!(spell(&vec![]), "");
    assert_eq!(spell(&vec![(0, 0), (14, 5)]), "Babrai");
    for (i, onset) in ONSET.iter().enumerate() {
        for (j, nucleus) in NUCLEUS.iter().enumerate() {
            let word = format!("{onset}{nucleus}{onset}{nucleus}");
            let capital = word[..1].to_uppercase() + &word[1..];
            assert_eq!(spell(&vec![(i, j), (i, j)]), capital);
        }
    }
}

#[test]
fn words_make_facts_two_by_two() {
    let words: Vec<String> = ["Ba", "De", "Fi", "Go", "Ku"].iter().map(|w| w.to_string()).collect();
    let facts = facts_about(&words);
    assert_eq!(facts.len(), 2);
    assert_eq!(facts[0].question, "What is the capital of Ba?");
    assert_eq!(facts[0].answer, "De");
    assert_eq!(facts[1].question, "Which element does the symbol Fi stand for?");
    assert_eq!(facts[1].answer, "Go");
    assert!(facts_about(&vec![]).is_empty());
}

#[test]
fn renumbering_reuses_no_id_in_use() {
    let old = vec![100_000, 100_002, 100_003, 100_010];
    let pairs = renumber(&old);
    for (i, (new, _)) in pairs.iter().enumerate() {
        assert!(old[i + 1..].iter().all(|id| new < id));
    }
}
