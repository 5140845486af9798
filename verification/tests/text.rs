use std::collections::HashSet;

use ablation::overlap::jaccard;
use ablation::overlap::Overlap;
use ablation::text::collapse;
use ablation::text::contains;
use ablation::text::normalize;
use ablation::text::shingles;
use ablation::text::split;

fn expected_normal(text: &str) -> String {
    text.to_lowercase()
        .chars()
        .map(|c| if c.is_alphanumeric() { c } else { ' ' })
        .collect::<String>()
        .split_whitespace()
        .collect::<Vec<_>>()
        .join(" ")
}

fn samples() -> Vec<&'static str> {
    vec![
        "",
        " ",
        "What is the capital of Xanadu?",
        "  Leading,  and trailing!  ",
        "ÄRGER mit der STRASSE",
        "ΣΊΣΥΦΟΣ",
        "İstanbul",
        "tab\tnew\nline\u{a0}nbsp\u{3000}wide",
        "emoji 🎉 party",
        "x² + y³ = ½",
        "under_score-dash",
        "A",
        "a b c d e f",
    ]
}

#[test]
fn normalizing_lowers_and_spaces_words() {
    assert_eq!(normalize("What is the capital of Xanadu?"), "what is the capital of xanadu");
    assert_eq!(normalize("  Tab\tand -- DASH "), "tab and dash");
    assert_eq!(normalize(""), "");
    assert_eq!(normalize("?!"), "");
    assert_eq!(normalize("ÄÖÜ"), "äöü");
    for s in samples() {
        assert_eq!(normalize(s), expected_normal(s), "{:?}", s);
    }
}

#[test]
fn splitting_keeps_empty_pieces() {
    assert_eq!(split(""), vec![""]);
    assert_eq!(split(" a  b"), vec!["", "a", "", "b"]);
    for s in samples() {
        let expected: Vec<String> = s.split(' ').map(|p| p.to_string()).collect();
        assert_eq!(split(s), expected);
    }
}

#[test]
fn shingles_are_three_words_each() {
    assert_eq!(shingles("a b c d"), vec!["a b c", "b c d"]);
    assert_eq!(shingles("a b c"), vec!["a b c"]);
    assert_eq!(shingles("a b"), vec!["a b"]);
    assert_eq!(shingles(""), vec![""]);
    assert_eq!(shingles("a  b"), vec!["a  b"]);
}

#[test]
fn containment_is_that_of_texts() {
    assert!(contains("seat of government", "of gov"));
    assert!(contains("abc", ""));
    assert!(contains("", ""));
    assert!(!contains("", "a"));
    assert!(!contains("ab", "abc"));
    assert!(contains("aaab", "aab"));
    assert!(!contains("abab", "bb"));
    for a in samples() {
        for b in samples() {
            assert_eq!(contains(a, b), a.contains(b), "{:?} {:?}", a, b);
        }
    }
}

#[test]
fn overlap_counts_sets_of_shingles() {
    assert_eq!(jaccard("a b c d", "b c d e"), Overlap { common: 1, total: 3 });
    assert_eq!(jaccard("a b c d", "a b c d"), Overlap { common: 2, total: 2 });
    assert_eq!(jaccard("a a a a a", "a a a"), Overlap { common: 1, total: 1 });
    assert_eq!(jaccard("", ""), Overlap { common: 1, total: 1 });
    assert_eq!(jaccard("x", "y"), Overlap { common: 0, total: 2 });
    for a in samples() {
        for b in samples() {
            let (a, b) = (normalize(a), normalize(b));
            let sa: HashSet<String> = shingles(&a).into_iter().collect();
            let sb: HashSet<String> = shingles(&b).into_iter().collect();
            let o = jaccard(&a, &b);
            assert_eq!(o.common, sa.intersection(&sb).count());
            assert_eq!(o.total, sa.union(&sb).count());
            let back = jaccard(&b, &a);
            assert_eq!(o, back);
        }
    }
}

#[test]
fn near_means_four_fifths_as_in_double_precision() {
    for total in 1..200usize {
        for common in 0..=total {
            let o = Overlap { common, total };
            assert_eq!(o.is_near(), common as f64 / total as f64 >= 0.8);
        }
    }
    assert!(Overlap { common: 4, total: 5 }.is_near());
    assert!(!Overlap { common: 79, total: 99 }.is_near());
}

#[test]
fn fractions_are_compared_by_value() {
    assert!(Overlap { common: 2, total: 3 }.exceeds(Overlap { common: 1, total: 2 }));
    assert!(!Overlap { common: 1, total: 2 }.exceeds(Overlap { common: 2, total: 4 }));
    assert!(!Overlap { common: 0, total: 9 }.exceeds(Overlap { common: 0, total: 1 }));
    assert!(Overlap { common: usize::MAX, total: usize::MAX }
        .exceeds(Overlap { common: usize::MAX - 1, total: usize::MAX }));
}

#[test]
fn collapsing_leaves_single_spaces() {
    assert_eq!(collapse("  a  b c "), "a b c");
    assert_eq!(collapse("   "), "");
    assert_eq!(collapse("a\tb  Z"), "a\tb Z");
}

#[test]
fn normalizing_settles_and_goes_part_by_part() {
    let beside = |a: String, b: String| match (a.is_empty(), b.is_empty()) {
        (true, _) => b,
        (_, true) => a,
        _ => format!("{a} {b}"),
    };
    for a in samples() {
        let once = normalize(a);
        assert_eq!(normalize(&once), once);
        assert_eq!(collapse(&collapse(a)), collapse(a));
        for b in samples() {
            let whole = format!("{a} {b}");
            assert_eq!(collapse(&whole), beside(collapse(a), collapse(b)));
            assert_eq!(normalize(&whole), beside(normalize(a), normalize(b)));
        }
    }
}
