use ablation::leakage::leakage_check;
use ablation::leakage::measure_leakage;
use ablation::leakage::pairs_fit;
use ablation::leakage::CorpusCard;

fn card(q: &str, probe: &str, answer: &str) -> CorpusCard {
    CorpusCard {
        card_q: q.to_string(),
        probes: vec![(probe.to_string(), answer.to_string())],
    }
}

#[test]
fn leakage_checker_flags_a_planted_duplicate() {
    let corpus = vec![
        // duplicates the held-back card's probe text exactly
        card(
            "What is the capital of Xanadu?",
            "Which city serves as the seat of government of Kubla?",
            "A",
        ),
        card(
            "What is the capital of Kubla?",
            "Which city serves as the seat of government of Kubla?",
            "B",
        ),
    ];
    let v = leakage_check(&corpus, &[false, true]);
    assert_eq!(v.exact_duplicates, 1);
    assert_eq!(v.passed, false);

    // distinct subjects: templates overlap but nothing duplicates exactly
    let corpus2 = vec![
        card(
            "What is the capital of Xanadu?",
            "Which city serves as the seat of government of Xanadu?",
            "A",
        ),
        corpus.into_iter().nth(1).unwrap(),
    ];
    let v2 = leakage_check(&corpus2, &[false, true]);
    assert_eq!(v2.exact_duplicates, 0);
    // template similarity against a held-back probe is measured, not lost
    let j = v2.max_overlap_vs_heldback_probes;
    assert!(j.common as f64 / j.total as f64 > 0.7);
}

fn plain(q: &str) -> CorpusCard {
    CorpusCard { card_q: q.to_string(), probes: vec![] }
}

#[test]
fn a_clean_corpus_passes_and_counts_its_pairs() {
    let corpus = vec![
        card("What is the capital of Brado?", "Name the seat of Brado", "Teli"),
        card("Which element is it", "Say what stands for Kor", "Zan"),
        plain("Another question entirely about nothing"),
    ];
    let v = leakage_check(&corpus, &[true, false, false]);
    assert!(v.passed);
    // one free probe against one held card and one held probe
    assert_eq!(v.pairs_checked, 2);
    assert_eq!(v.exact_duplicates, 0);
    assert_eq!(v.near_dup_vs_heldback_cards, 0);
    assert_eq!(v.near_dup_vs_heldback_probes, 0);
    assert_eq!(v.max_overlap_vs_heldback_cards.common, 0);
    assert_eq!(v.probes_containing_own_answer, 0);
}

#[test]
fn repeating_a_heldback_card_question_fails_the_check() {
    let corpus = vec![
        card("One thing", "what IS the capital, of Kubla", "x y z"),
        plain("What is the capital of Kubla?"),
    ];
    let v = leakage_check(&corpus, &[false, true]);
    assert_eq!(v.exact_duplicates, 1);
    assert_eq!(v.near_dup_vs_heldback_cards, 1);
    let j = v.max_overlap_vs_heldback_cards;
    assert_eq!(j.common, j.total);
    assert!(!v.passed);
}

#[test]
fn coming_near_a_heldback_card_question_fails_the_check() {
    // six shingles, of which five are shared
    let corpus = vec![
        card("Own", "a b c d e f g", "none of these"),
        plain("a b c d e f g h"),
    ];
    let v = leakage_check(&corpus, &[false, true]);
    assert_eq!(v.exact_duplicates, 0);
    assert_eq!(v.near_dup_vs_heldback_cards, 1);
    assert_eq!(
        (v.max_overlap_vs_heldback_cards.common, v.max_overlap_vs_heldback_cards.total),
        (5, 6)
    );
    assert!(!v.passed);
}

#[test]
fn coming_near_a_heldback_probe_is_counted_only() {
    let corpus = vec![
        card("Own", "a b c d e f g", "none of these"),
        card("Held", "a b c d e f g h", "none of those"),
    ];
    let v = leakage_check(&corpus, &[false, true]);
    assert_eq!(v.near_dup_vs_heldback_probes, 1);
    assert_eq!(v.near_dup_vs_heldback_cards, 0);
    assert!(v.passed);
}

#[test]
fn an_answer_in_its_stem_fails_the_check_even_of_a_heldback_card() {
    let corpus = vec![plain("Own"), card("Held", "Is Teli the seat", "teli!")];
    let v = leakage_check(&corpus, &[false, true]);
    assert_eq!(v.probes_containing_own_answer, 1);
    assert_eq!(v.pairs_checked, 0);
    assert!(!v.passed);
    // an answer without letters or numbers is the empty text, which is everywhere
    let corpus = vec![card("Own", "Some question", "?!")];
    assert_eq!(leakage_check(&corpus, &[false]).probes_containing_own_answer, 1);
}

#[test]
fn closeness_to_the_own_card_is_measured_for_every_probe() {
    let corpus = vec![
        card("a b c d", "x y z", "q"),
        card("a b c d", "a b c d e", "q"),
    ];
    let v = leakage_check(&corpus, &[true, false]);
    assert_eq!(
        (v.max_overlap_with_own_card.common, v.max_overlap_with_own_card.total),
        (2, 3)
    );
    let nothing = leakage_check(&vec![plain("a")], &[true]);
    assert_eq!(
        (nothing.max_overlap_with_own_card.common, nothing.max_overlap_with_own_card.total),
        (0, 1)
    );
    assert!(nothing.passed);
}

#[test]
fn cards_beyond_the_split_are_not_held_back() {
    let corpus = vec![card("One", "a b c", "q"), plain("a b c")];
    let v = leakage_check(&corpus, &[false]);
    assert_eq!(v.pairs_checked, 0);
    assert!(v.passed);
}

#[test]
fn normalized_texts_are_measured_as_they_stand() {
    let list = |texts: &[&str]| texts.iter().map(|t| t.to_string()).collect::<Vec<String>>();
    let stem = |p: &str, c: &str, a: &str| (p.to_string(), c.to_string(), a.to_string());
    let v = measure_leakage(
        &list(&["a b c d", "x"]),
        &list(&["a b c e"]),
        &list(&["x", "a b c d"]),
        &vec![stem("a b c d", "a b c d", "z"), stem("x", "y", "x")],
    );
    assert_eq!(v.pairs_checked, 6);
    assert_eq!(v.exact_duplicates, 2);
    assert_eq!(v.near_dup_vs_heldback_cards, 0);
    assert_eq!(v.max_overlap_vs_heldback_cards.common * 3, v.max_overlap_vs_heldback_cards.total);
    assert_eq!(v.near_dup_vs_heldback_probes, 2);
    assert_eq!(v.max_overlap_vs_heldback_probes.common, v.max_overlap_vs_heldback_probes.total);
    assert_eq!(v.max_overlap_with_own_card.common, v.max_overlap_with_own_card.total);
    assert_eq!(v.probes_containing_own_answer, 1);
    assert!(!v.passed);

    let empty = measure_leakage(&vec![], &vec![], &vec![], &vec![]);
    assert_eq!(empty.pairs_checked, 0);
    assert_eq!(empty.max_overlap_vs_heldback_cards.common, 0);
    assert!(empty.passed);
}

#[test]
fn the_order_of_cards_and_probes_does_not_matter() {
    let texts = |q: &str, probes: &[(&str, &str)]| CorpusCard {
        card_q: q.to_string(),
        probes: probes.iter().map(|(p, a)| (p.to_string(), a.to_string())).collect(),
    };
    let one = [("a b c d", "z"), ("what is the name of it", "name"), ("x", "y")];
    let two = [("a b c d", "q"), ("a b c e", "q")];
    let a = vec![texts("a b c d e", &one), texts("the name of it is", &two), texts("x", &[])];
    let b = vec![
        texts("x", &[]),
        texts("a b c d e", &[one[2], one[0], one[1]]),
        texts("the name of it is", &[two[1], two[0]]),
    ];
    let fraction = |o: ablation::overlap::Overlap| o.common as f64 / o.total as f64;
    for held in 0..8u32 {
        let side = |i: u32| held >> i & 1 == 1;
        let r = leakage_check(&a, &[side(0), side(1), side(2)]);
        let s = leakage_check(&b, &[side(2), side(0), side(1)]);
        assert_eq!(r.pairs_checked, s.pairs_checked);
        assert_eq!(r.exact_duplicates, s.exact_duplicates);
        assert_eq!(r.near_dup_vs_heldback_cards, s.near_dup_vs_heldback_cards);
        assert_eq!(r.near_dup_vs_heldback_probes, s.near_dup_vs_heldback_probes);
        assert_eq!(r.probes_containing_own_answer, s.probes_containing_own_answer);
        assert_eq!(r.passed, s.passed);
        for (x, y) in [
            (r.max_overlap_vs_heldback_cards, s.max_overlap_vs_heldback_cards),
            (r.max_overlap_vs_heldback_probes, s.max_overlap_vs_heldback_probes),
            (r.max_overlap_with_own_card, s.max_overlap_with_own_card),
        ] {
            assert_eq!(fraction(x), fraction(y));
        }
    }
}

#[test]
fn pairs_that_can_be_counted_fit() {
    assert!(pairs_fit(&vec![], &[]));
    let corpus = vec![card("One", "a b c", "q"), plain("a b c"), card("Two", "d e f", "q")];
    for split in [[false, false, false], [true, false, false], [true, true, true]] {
        assert!(pairs_fit(&corpus, &split));
    }
    assert!(pairs_fit(&corpus, &[true]));
}
