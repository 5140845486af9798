//! The synthetic corpus: questions and answers about invented words.

use rand::rngs::StdRng;
use vstd::hash_set::StringHashSet;
use vstd::prelude::*;
use vstd::string::*;
use vstd::utf8::is_ascii_chars;

use crate::config::AblationConfig;
use crate::config::FIRST_CARD_ID;
use crate::order::ordered;
use crate::order::stable_sort;
use crate::order::stable_sort_of;
use crate::order::Keyed;
use crate::overlap::lemma_set_after_push;
use crate::stream::draw_index;
use crate::stream::generator_state;
use crate::stream::index_draw;
use crate::stream::rng_for;
use crate::stream::seeded_state;
use crate::stream::short_namespaces_fit;
use crate::stream::stream_seed;
use crate::text::characters;
use crate::text::texts;

verus! {

/// How many onsets there are.
pub const ONSETS: usize = 17;

/// How many nuclei there are.
pub const NUCLEI: usize = 9;

/// What a syllable may start with.
pub open spec fn onset_text(i: usize) -> Seq<char> {
    match i {
        0 => seq!['b'],
        1 => seq!['d'],
        2 => seq!['f'],
        3 => seq!['g'],
        4 => seq!['k'],
        5 => seq!['l'],
        6 => seq!['m'],
        7 => seq!['n'],
        8 => seq!['p'],
        9 => seq!['r'],
        10 => seq!['s'],
        11 => seq!['t'],
        12 => seq!['v'],
        13 => seq!['z'],
        14 => seq!['b', 'r'],
        15 => seq!['s', 't'],
        _ => seq!['t', 'r'],
    }
}

/// What a syllable may end with.
pub open spec fn nucleus_text(i: usize) -> Seq<char> {
    match i {
        0 => seq!['a'],
        1 => seq!['e'],
        2 => seq!['i'],
        3 => seq!['o'],
        4 => seq!['u'],
        5 => seq!['a', 'i'],
        6 => seq!['o', 'r'],
        7 => seq!['a', 'n'],
        _ => seq!['e', 'l'],
    }
}

fn push_onset(word: &mut Vec<char>, i: usize)
    ensures
        final(word)@ == old(word)@ + onset_text(i),
{
    let ghost before = word@;
    match i {
        0 => word.push('b'),
        1 => word.push('d'),
        2 => word.push('f'),
        3 => word.push('g'),
        4 => word.push('k'),
        5 => word.push('l'),
        6 => word.push('m'),
        7 => word.push('n'),
        8 => word.push('p'),
        9 => word.push('r'),
        10 => word.push('s'),
        11 => word.push('t'),
        12 => word.push('v'),
        13 => word.push('z'),
        14 => {
            word.push('b');
            word.push('r');
        },
        15 => {
            word.push('s');
            word.push('t');
        },
        _ => {
            word.push('t');
            word.push('r');
        },
    }
    proof {
        assert(word@ =~= before + onset_text(i));
    }
}

fn push_nucleus(word: &mut Vec<char>, i: usize)
    ensures
        final(word)@ == old(word)@ + nucleus_text(i),
{
    let ghost before = word@;
    match i {
        0 => word.push('a'),
        1 => word.push('e'),
        2 => word.push('i'),
        3 => word.push('o'),
        4 => word.push('u'),
        5 => {
            word.push('a');
            word.push('i');
        },
        6 => {
            word.push('o');
            word.push('r');
        },
        7 => {
            word.push('a');
            word.push('n');
        },
        _ => {
            word.push('e');
            word.push('l');
        },
    }
    proof {
        assert(word@ =~= before + nucleus_text(i));
    }
}

/// `n` syllables drawn from a generator in `state`, each an onset and a nucleus,
/// and the state after them.
pub open spec fn syllables_of(state: Seq<u32>, n: nat) -> (Seq<(usize, usize)>, Seq<u32>)
    decreases n,
{
    if n == 0 {
        (Seq::empty(), state)
    } else {
        let front = syllables_of(state, (n - 1) as nat);
        let onset = index_draw(front.1, ONSETS);
        let nucleus = index_draw(onset.1, NUCLEI);
        (front.0.push((onset.0, nucleus.0)), nucleus.1)
    }
}

/// The letters of syllables, one after the other.
pub open spec fn letters(syllables: Seq<(usize, usize)>) -> Seq<char>
    decreases syllables.len(),
{
    if syllables.len() == 0 {
        Seq::empty()
    } else {
        letters(syllables.drop_last()) + onset_text(syllables.last().0) + nucleus_text(
            syllables.last().1,
        )
    }
}

/// A small letter as a capital.
pub open spec fn capital(c: char) -> char {
    if 'a' <= c <= 'z' {
        (c as u8 - 32) as char
    } else {
        c
    }
}

/// A word with a capital first letter.
pub open spec fn capitalized(word: Seq<char>) -> Seq<char> {
    if word.len() == 0 {
        word
    } else {
        word.update(0, capital(word[0]))
    }
}

/// The word of `n` syllables drawn from a generator in `state`, and the state
/// after it.
pub open spec fn pseudoword_of(state: Seq<u32>, n: nat) -> (Seq<char>, Seq<u32>) {
    (capitalized(letters(syllables_of(state, n).0)), syllables_of(state, n).1)
}

/// A capital letter and small letters after it.
pub open spec fn is_word(word: Seq<char>) -> bool {
    &&& word.len() > 0 ==> 'A' <= word[0] <= 'Z'
    &&& forall|i: int| 0 < i < word.len() ==> 'a' <= #[trigger] word[i] <= 'z'
}

fn to_string(chars: &Vec<char>) -> (out: String)
    ensures
        out@ == chars@,
{
    let mut out: String = String::new();
    for i in 0..chars.len()
        invariant
            out@ == chars@.take(i as int),
    {
        out.push(chars[i]);
        proof {
            assert(chars@.take(i + 1) =~= chars@.take(i as int).push(chars@[i as int]));
        }
    }
    proof {
        assert(chars@.take(chars@.len() as int) =~= chars@);
    }
    out
}

/// The word that syllables make, each an onset and a nucleus.
pub fn spell(syllables: &Vec<(usize, usize)>) -> (word: String)
    ensures
        word@ == capitalized(letters(syllables@)),
        is_word(word@),
        (word@.len() == 0) == (syllables@.len() == 0),
{
    let mut w: Vec<char> = Vec::new();
    for i in 0..syllables.len()
        invariant
            w@ == letters(syllables@.take(i as int)),
            forall|k: int| 0 <= k < w@.len() ==> 'a' <= #[trigger] w@[k] <= 'z',
            (w@.len() == 0) == (i == 0),
    {
        push_onset(&mut w, syllables[i].0);
        push_nucleus(&mut w, syllables[i].1);
        proof {
            assert(syllables@.take(i + 1).drop_last() =~= syllables@.take(i as int));
        }
    }
    proof {
        assert(syllables@.take(syllables@.len() as int) =~= syllables@);
    }
    if w.len() > 0 {
        let first: char = (w[0] as u8 - 32) as char;
        w.set(0, first);
    }
    to_string(&w)
}

/// An invented word of so many syllables.
pub fn pseudoword(rng: &mut StdRng, syllables: usize) -> (word: String)
    ensures
        (word@, generator_state(*final(rng))) == pseudoword_of(
            generator_state(*old(rng)),
            syllables as nat,
        ),
        is_word(word@),
        (word@.len() == 0) == (syllables == 0),
{
    let ghost start = generator_state(*rng);
    let mut drawn: Vec<(usize, usize)> = Vec::new();
    for i in 0..syllables
        invariant
            (drawn@, generator_state(*rng)) == syllables_of(start, i as nat),
            drawn@.len() == i,
    {
        let onset: usize = draw_index(rng, ONSETS);
        let nucleus: usize = draw_index(rng, NUCLEI);
        drawn.push((onset, nucleus));
    }
    spell(&drawn)
}

/// How many question templates there are.
pub const TEMPLATES: usize = 5;

/// The question templates; `{s}` stands for the subject. Two cards share text
/// only where they share a template.
pub open spec fn template_text(k: usize) -> Seq<char> {
    match k {
        0 => "What is the capital of {s}?"@,
        1 => "Which element does the symbol {s} stand for?"@,
        2 => "What does the enzyme {s} catalyse?"@,
        3 => "In which year was the Treaty of {s} signed?"@,
        _ => "What is the currency of {s}?"@,
    }
}

fn template(k: usize) -> (text: &'static str)
    ensures
        text@ == template_text(k),
{
    match k {
        0 => "What is the capital of {s}?",
        1 => "Which element does the symbol {s} stand for?",
        2 => "What does the enzyme {s} catalyse?",
        3 => "In which year was the Treaty of {s} signed?",
        _ => "What is the currency of {s}?",
    }
}

/// `text` starts with a slot for the subject.
pub open spec fn starts_with_slot(text: Seq<char>) -> bool {
    text.len() >= 3 && text[0] == '{' && text[1] == 's' && text[2] == '}'
}

/// `text` with the subject in place of every slot.
pub open spec fn filled(text: Seq<char>, subject: Seq<char>) -> Seq<char>
    decreases text.len(),
{
    if text.len() == 0 {
        text
    } else if starts_with_slot(text) {
        subject + filled(text.skip(3), subject)
    } else {
        seq![text[0]] + filled(text.skip(1), subject)
    }
}

/// Puts the subject in place of every slot of a text.
pub fn fill(text: &str, subject: &str) -> (out: String)
    ensures
        out@ == filled(text@, subject@),
{
    let chars = characters(text);
    let size: usize = chars.len();
    let mut out: String = String::new();
    let mut i: usize = 0;
    proof {
        assert(text@.skip(0) =~= text@);
        assert(out@ + filled(text@, subject@) =~= filled(text@, subject@));
    }
    while i < size
        invariant
            chars@ == text@,
            size == chars@.len(),
            i <= size,
            out@ + filled(text@.skip(i as int), subject@) == filled(text@, subject@),
        decreases size - i,
    {
        let ghost rest = text@.skip(i as int);
        let ghost before = out@;
        if size - i >= 3 && chars[i] == '{' && chars[i + 1] == 's' && chars[i + 2] == '}' {
            out.append(subject);
            proof {
                assert(starts_with_slot(rest));
                assert(rest.skip(3) =~= text@.skip(i + 3));
                assert(out@ + filled(rest.skip(3), subject@) =~= before + filled(rest, subject@));
            }
            i = i + 3;
        } else {
            out.push(chars[i]);
            proof {
                assert(!starts_with_slot(rest));
                assert(rest.skip(1) =~= text@.skip(i + 1));
                assert(out@ + filled(rest.skip(1), subject@) =~= before + filled(rest, subject@));
            }
            i = i + 1;
        }
    }
    proof {
        assert(text@.skip(i as int) =~= Seq::<char>::empty());
        assert(out@ + Seq::<char>::empty() =~= out@);
    }
    out
}

/// What stands before the slot of a template.
spec fn head_text(k: usize) -> Seq<char> {
    match k {
        0 => "What is the capital of "@,
        1 => "Which element does the symbol "@,
        2 => "What does the enzyme "@,
        3 => "In which year was the Treaty of "@,
        _ => "What is the currency of "@,
    }
}

/// What stands behind the slot of a template.
spec fn tail_text(k: usize) -> Seq<char> {
    match k {
        0 => "?"@,
        1 => " stand for?"@,
        2 => " catalyse?"@,
        3 => " signed?"@,
        _ => "?"@,
    }
}

/// From the `i`-th character on, `text` has no opening brace.
spec fn braceless(text: Seq<char>, i: int) -> bool
    decreases text.len() - i,
{
    i >= text.len() || (text[i] != '{' && braceless(text, i + 1))
}

proof fn lemma_braceless(text: Seq<char>, i: int, j: int)
    requires
        braceless(text, i),
        i <= j < text.len(),
    ensures
        text[j] != '{',
    decreases j - i,
{
    if i < j {
        lemma_braceless(text, i + 1, j);
    }
}

/// A text without a slot is not changed by filling it.
proof fn lemma_filled_plain(text: Seq<char>, subject: Seq<char>)
    requires
        forall|i: int| 0 <= i < text.len() ==> #[trigger] text[i] != '{',
    ensures
        filled(text, subject) == text,
    decreases text.len(),
{
    if text.len() > 0 {
        let rest = text.skip(1);
        assert forall|i: int| 0 <= i < rest.len() implies #[trigger] rest[i] != '{' by {
            assert(rest[i] == text[i + 1]);
        }
        lemma_filled_plain(rest, subject);
        assert(seq![text[0]] + rest =~= text);
    }
}

/// A slot gets the subject in its place: what stands before it stays, and what stands
/// behind it is filled on its own.
pub proof fn filling_replaces_the_slot(head: Seq<char>, tail: Seq<char>, subject: Seq<char>)
    requires
        forall|i: int| 0 <= i < head.len() ==> #[trigger] head[i] != '{',
    ensures
        filled(head + seq!['{', 's', '}'] + tail, subject) == head + subject + filled(tail, subject),
    decreases head.len(),
{
    let text = head + seq!['{', 's', '}'] + tail;
    if head.len() == 0 {
        assert(text.skip(3) =~= tail);
        assert(filled(text, subject) =~= head + subject + filled(tail, subject));
    } else {
        let rest = head.skip(1);
        assert forall|i: int| 0 <= i < rest.len() implies #[trigger] rest[i] != '{' by {
            assert(rest[i] == head[i + 1]);
        }
        filling_replaces_the_slot(rest, tail, subject);
        assert(text[0] == head[0]);
        assert(text.skip(1) =~= rest + seq!['{', 's', '}'] + tail);
        assert(filled(text, subject) =~= head + subject + filled(tail, subject));
    }
}

/// A text with one slot gets the subject in its place.
proof fn lemma_filled_once(head: Seq<char>, tail: Seq<char>, subject: Seq<char>)
    requires
        forall|i: int| 0 <= i < head.len() ==> #[trigger] head[i] != '{',
        forall|i: int| 0 <= i < tail.len() ==> #[trigger] tail[i] != '{',
    ensures
        filled(head + seq!['{', 's', '}'] + tail, subject) == head + subject + tail,
{
    filling_replaces_the_slot(head, tail, subject);
    lemma_filled_plain(tail, subject);
}

/// A character that does not open a slot stays where it is.
pub proof fn filling_keeps_what_is_no_slot(c: char, rest: Seq<char>, subject: Seq<char>)
    requires
        c != '{' || rest.len() < 2 || rest[0] != 's' || rest[1] != '}',
    ensures
        filled(seq![c] + rest, subject) == seq![c] + filled(rest, subject),
        filled(Seq::<char>::empty(), subject) == Seq::<char>::empty(),
{
    let text = seq![c] + rest;
    assert(text.skip(1) =~= rest);
    if text.len() >= 3 {
        assert(text[1] == rest[0] && text[2] == rest[1]);
    }
}

/// The parts of a template, and four characters that tell the templates apart.
proof fn lemma_template_parts(k: usize)
    requires
        k < TEMPLATES,
    ensures
        template_text(k) == head_text(k) + seq!['{', 's', '}'] + tail_text(k),
        braceless(head_text(k), 0),
        braceless(tail_text(k), 0),
        head_text(k).len() > 13,
        head_text(k)[0] == (if k == 3 { 'I' } else { 'W' }),
        head_text(k)[2] == (if k == 3 { ' ' } else if k == 1 { 'i' } else { 'a' }),
        k == 2 ==> head_text(k)[5] == 'd',
        k == 0 || k == 4 ==> head_text(k)[5] == 'i',
        k == 0 ==> head_text(k)[13] == 'a',
        k == 4 ==> head_text(k)[13] == 'u',
{
    reveal_with_fuel(braceless, 40);
    if k == 0 {
        reveal_strlit("What is the capital of {s}?");
        reveal_strlit("What is the capital of ");
        reveal_strlit("?");
    } else if k == 1 {
        reveal_strlit("Which element does the symbol {s} stand for?");
        reveal_strlit("Which element does the symbol ");
        reveal_strlit(" stand for?");
    } else if k == 2 {
        reveal_strlit("What does the enzyme {s} catalyse?");
        reveal_strlit("What does the enzyme ");
        reveal_strlit(" catalyse?");
    } else if k == 3 {
        reveal_strlit("In which year was the Treaty of {s} signed?");
        reveal_strlit("In which year was the Treaty of ");
        reveal_strlit(" signed?");
    } else {
        reveal_strlit("What is the currency of {s}?");
        reveal_strlit("What is the currency of ");
        reveal_strlit("?");
    }
    assert(template_text(k) =~= head_text(k) + seq!['{', 's', '}'] + tail_text(k));
}

proof fn lemma_question(k: usize, subject: Seq<char>)
    requires
        k < TEMPLATES,
    ensures
        filled(template_text(k), subject) == head_text(k) + subject + tail_text(k),
{
    lemma_template_parts(k);
    let (head, tail) = (head_text(k), tail_text(k));
    assert forall|i: int| 0 <= i < head.len() implies #[trigger] head[i] != '{' by {
        lemma_braceless(head, 0, i);
    }
    assert forall|i: int| 0 <= i < tail.len() implies #[trigger] tail[i] != '{' by {
        lemma_braceless(tail, 0, i);
    }
    lemma_filled_once(head, tail, subject);
}

/// A question tells which template it was made from and what it asks about.
pub proof fn questions_tell_subjects_apart(k: usize, m: usize, s: Seq<char>, t: Seq<char>)
    requires
        k < TEMPLATES,
        m < TEMPLATES,
        filled(template_text(k), s) == filled(template_text(m), t),
    ensures
        k == m,
        s == t,
{
    lemma_template_parts(k);
    lemma_template_parts(m);
    lemma_question(k, s);
    lemma_question(m, t);
    let a = head_text(k) + s + tail_text(k);
    let b = head_text(m) + t + tail_text(m);
    assert(a[0] == head_text(k)[0] && b[0] == head_text(m)[0]);
    assert(a[2] == head_text(k)[2] && b[2] == head_text(m)[2]);
    assert(a[5] == head_text(k)[5] && b[5] == head_text(m)[5]);
    assert(a[13] == head_text(k)[13] && b[13] == head_text(m)[13]);
    assert(k == m);
    assert(a == b);
    let from = head_text(k).len() as int;
    assert(s.len() == a.len() - from - tail_text(k).len());
    assert(t.len() == s.len());
    assert(s =~= a.subrange(from, from + s.len()));
    assert(t =~= b.subrange(from, from + s.len()));
}

/// How many words are tried before the search for an unused one is given up.
pub const ATTEMPTS: u64 = 0xffff_ffff_ffff_ffff;

/// The first of the next `attempts` words of a generator in `state` that is not
/// used yet, and the state after it.
pub open spec fn fresh_of(
    state: Seq<u32>,
    n: nat,
    used: Set<Seq<char>>,
    attempts: nat,
) -> Option<(Seq<char>, Seq<u32>)>
    decreases attempts,
{
    if attempts == 0 {
        None
    } else {
        let word = pseudoword_of(state, n);
        if used.contains(word.0) {
            fresh_of(word.1, n, used, (attempts - 1) as nat)
        } else {
            Some(word)
        }
    }
}

/// A fresh word is an unused one.
proof fn lemma_fresh_is_unused(state: Seq<u32>, n: nat, used: Set<Seq<char>>, attempts: nat)
    ensures
        fresh_of(state, n, used, attempts) matches Some(found) ==> !used.contains(found.0),
    decreases attempts,
{
    if attempts > 0 {
        lemma_fresh_is_unused(pseudoword_of(state, n).1, n, used, (attempts - 1) as nat);
    }
}

/// The next word that is not used yet; it is used from then on.
fn fresh(rng: &mut StdRng, syllables: usize, used: &mut StringHashSet) -> (found: Option<String>)
    ensures
        match found {
            Some(word) => {
                &&& fresh_of(
                    generator_state(*old(rng)),
                    syllables as nat,
                    old(used)@,
                    ATTEMPTS as nat,
                ) == Some((word@, generator_state(*final(rng))))
                &&& is_word(word@)
                &&& final(used)@ == old(used)@.insert(word@)
            },
            None => fresh_of(
                generator_state(*old(rng)),
                syllables as nat,
                old(used)@,
                ATTEMPTS as nat,
            ) is None,
        },
{
    let ghost start = generator_state(*rng);
    let ghost taken = used@;
    let mut left: u64 = ATTEMPTS;
    while left > 0
        invariant
            start == generator_state(*old(rng)),
            taken == old(used)@,
            used@ == taken,
            fresh_of(start, syllables as nat, taken, ATTEMPTS as nat) == fresh_of(
                generator_state(*rng),
                syllables as nat,
                taken,
                left as nat,
            ),
        decreases left,
    {
        let word = pseudoword(rng, syllables);
        if used.insert(word.clone()) {
            return Some(word);
        }
        proof {
            assert(taken.insert(word@) =~= taken);
        }
        left = left - 1;
    }
    None
}

/// The words of a corpus of `n` cards: for each card its subject and its object.
/// Each word is the first of the card's stream that no earlier place has.
pub open spec fn corpus_words(seed: u64, n: nat) -> Option<Seq<Seq<char>>>
    decreases n,
{
    if n == 0 {
        Some(Seq::empty())
    } else {
        match corpus_words(seed, (n - 1) as nat) {
            None => None,
            Some(words) => {
                let start = seeded_state(stream_seed(seed, "corpus"@, seq![(n - 1) as u64]));
                match fresh_of(start, 3, words.to_set(), ATTEMPTS as nat) {
                    None => None,
                    Some(subject) => {
                        let taken = words.push(subject.0);
                        match fresh_of(subject.1, 2, taken.to_set(), ATTEMPTS as nat) {
                            None => None,
                            Some(object) => Some(taken.push(object.0)),
                        }
                    },
                }
            },
        }
    }
}

/// What one card of the corpus asks and what it expects.
#[derive(Debug)]
pub struct Fact {
    pub question: String,
    pub answer: String,
}

/// The `i`-th fact of a corpus with these words.
pub open spec fn is_fact(fact: Fact, words: Seq<Seq<char>>, i: int) -> bool {
    &&& fact.question@ == filled(template_text((i % TEMPLATES as int) as usize), words[2 * i])
    &&& fact.answer@ == words[2 * i + 1]
}

/// The facts that words make: of each two, the first is asked about and the
/// second is the answer. The templates take turns.
pub fn facts_about(words: &Vec<String>) -> (facts: Vec<Fact>)
    ensures
        facts@.len() == words@.len() / 2,
        forall|i: int| 0 <= i < facts@.len() ==> is_fact(#[trigger] facts@[i], texts(words@), i),
{
    let mut facts: Vec<Fact> = Vec::new();
    let size: usize = words.len();
    for i in 0..size / 2
        invariant
            size == words@.len(),
            facts@.len() == i,
            forall|j: int| 0 <= j < i ==> is_fact(#[trigger] facts@[j], texts(words@), j),
    {
        let question = fill(template(i % TEMPLATES), words[2 * i].as_str());
        facts.push(Fact { question, answer: words[2 * i + 1].clone() });
    }
    facts
}

/// No unused word was found in as many attempts as are made.
#[derive(Debug, Clone, Copy, PartialEq, Eq, Structural)]
pub struct WordsExhausted;

/// Invents the facts of the corpus, card by card. All its words are distinct, so
/// no two cards share a question or an answer.
pub fn emit_corpus_collection(cfg: &AblationConfig) -> (facts: Result<Vec<Fact>, WordsExhausted>)
    ensures
        match facts {
            Ok(facts) => {
                &&& corpus_words(cfg.seed, cfg.cards as nat) matches Some(words)
                &&& facts@.len() == cfg.cards
                &&& forall|i: int| 0 <= i < facts@.len() ==> is_fact(#[trigger] facts@[i], words, i)
                &&& forall|i: int|
                    0 <= i < facts@.len() ==> is_word((#[trigger] facts@[i]).answer@)
                &&& forall|i: int, j: int|
                    #![trigger facts@[i], facts@[j]]
                    0 <= i < j < facts@.len() ==> facts@[i].answer@ != facts@[j].answer@
                        && facts@[i].question@ != facts@[j].question@
            },
            Err(_) => corpus_words(cfg.seed, cfg.cards as nat) is None,
        },
{
    proof {
        reveal_strlit("corpus");
        assert(is_ascii_chars("corpus"@));
        short_namespaces_fit("corpus"@);
    }
    let mut used = StringHashSet::new();
    let mut words: Vec<String> = Vec::new();
    proof {
        assert(texts(words@) =~= Seq::<Seq<char>>::empty());
        assert(used@ =~= texts(words@).to_set());
    }
    for i in 0..cfg.cards
        invariant
            crate::stream::namespace_number(vstd::utf8::encode_utf8("corpus"@)) <= u64::MAX,
            corpus_words(cfg.seed, i as nat) == Some(texts(words@)),
            used@ == texts(words@).to_set(),
            words@.len() == 2 * i,
            forall|j: int| 0 <= j < words@.len() ==> is_word((#[trigger] words@[j])@),
    {
        let ghost before = texts(words@);
        let part: [u64; 1] = [i as u64];
        let mut rng = rng_for(cfg.seed, "corpus", &part);
        proof {
            assert(part@ =~= seq![i as u64]);
            lemma_later_failure(cfg.seed, (i + 1) as nat, cfg.cards as nat);
        }
        let subject = match fresh(&mut rng, 3, &mut used) {
            Some(word) => word,
            None => return Err(WordsExhausted),
        };
        let ghost first = subject@;
        words.push(subject);
        proof {
            assert(texts(words@) =~= before.push(first));
            lemma_set_after_push(before, first);
        }
        let object = match fresh(&mut rng, 2, &mut used) {
            Some(word) => word,
            None => return Err(WordsExhausted),
        };
        let ghost second = object@;
        words.push(object);
        proof {
            assert(texts(words@) =~= before.push(first).push(second));
            lemma_set_after_push(before.push(first), second);
        }
    }
    let facts = facts_about(&words);
    proof {
        let all = texts(words@);
        corpus_words_are_distinct(cfg.seed, cfg.cards as nat);
        assert forall|i: int| 0 <= i < facts@.len() implies is_word(
            (#[trigger] facts@[i]).answer@,
        ) by {
            assert(is_word(words@[2 * i + 1]@));
        }
        assert forall|i: int, j: int|
            #![trigger facts@[i], facts@[j]]
            0 <= i < j < facts@.len() implies facts@[i].answer@ != facts@[j].answer@
            && facts@[i].question@ != facts@[j].question@ by {
            assert(all[2 * i + 1] != all[2 * j + 1]);
            assert(all[2 * i] != all[2 * j]);
            if facts@[i].question@ == facts@[j].question@ {
                questions_tell_subjects_apart(
                    (i % TEMPLATES as int) as usize,
                    (j % TEMPLATES as int) as usize,
                    all[2 * i],
                    all[2 * j],
                );
            }
        }
    }
    Ok(facts)
}

/// A corpus that fails at some card fails at every larger size.
proof fn lemma_later_failure(seed: u64, n: nat, m: nat)
    requires
        n <= m,
    ensures
        corpus_words(seed, n) is None ==> corpus_words(seed, m) is None,
    decreases m,
{
    if n < m {
        lemma_later_failure(seed, n, (m - 1) as nat);
    }
}

/// The words of a corpus are two to a card, and all of them differ.
pub proof fn corpus_words_are_distinct(seed: u64, n: nat)
    ensures
        corpus_words(seed, n) matches Some(words) ==> words.len() == 2 * n && words.no_duplicates(),
    decreases n,
{
    if n > 0 {
        corpus_words_are_distinct(seed, (n - 1) as nat);
        if let Some(all) = corpus_words(seed, n) {
            let words = corpus_words(seed, (n - 1) as nat).unwrap();
            let start = seeded_state(stream_seed(seed, "corpus"@, seq![(n - 1) as u64]));
            let subject = fresh_of(start, 3, words.to_set(), ATTEMPTS as nat).unwrap();
            lemma_fresh_is_unused(start, 3, words.to_set(), ATTEMPTS as nat);
            assert(!words.contains(subject.0));
            let taken = words.push(subject.0);
            assert(taken.no_duplicates());
            let object = fresh_of(subject.1, 2, taken.to_set(), ATTEMPTS as nat).unwrap();
            lemma_fresh_is_unused(subject.1, 2, taken.to_set(), ATTEMPTS as nat);
            assert(!taken.contains(object.0));
            assert(all == taken.push(object.0));
            assert(all.no_duplicates());
        }
    }
}

/// A larger corpus of the same seed starts with the smaller one.
pub proof fn smaller_corpora_are_prefixes(seed: u64, n: nat, m: nat)
    requires
        n <= m,
    ensures
        corpus_words(seed, m) matches Some(words) ==> corpus_words(seed, n) == Some(
            words.take(2 * n as int),
        ),
    decreases m,
{
    corpus_words_are_distinct(seed, m);
    if let Some(words) = corpus_words(seed, m) {
        if n == m {
            assert(words.take(2 * n as int) =~= words);
        } else {
            smaller_corpora_are_prefixes(seed, n, (m - 1) as nat);
            corpus_words_are_distinct(seed, (m - 1) as nat);
            let front = corpus_words(seed, (m - 1) as nat).unwrap();
            assert(words.take(2 * n as int) =~= front.take(2 * n as int));
        }
    }
}

impl Keyed for i64 {
    open spec fn key(self) -> (int, int) {
        (self as int, 0)
    }

    fn precedes(&self, other: &Self) -> (b: bool) {
        *self < *other
    }
}

/// The old ids of a renumbering.
pub open spec fn old_ids(pairs: Seq<(i64, i64)>) -> Seq<i64> {
    pairs.map_values(|p: (i64, i64)| p.1)
}

/// Gives the cards consecutive ids in the order of those they have: pairs of a
/// new id and the old one that it replaces.
pub fn renumber(ids: &Vec<i64>) -> (pairs: Vec<(i64, i64)>)
    requires
        FIRST_CARD_ID + ids@.len() <= i64::MAX,
    ensures
        stable_sort_of(ids@, old_ids(pairs@)),
        pairs@.len() == ids@.len(),
        forall|i: int| 0 <= i < pairs@.len() ==> (#[trigger] pairs@[i]).0 == FIRST_CARD_ID + i,
{
    let sorted = stable_sort(ids);
    let mut pairs: Vec<(i64, i64)> = Vec::new();
    proof {
        ids@.to_multiset_ensures();
        sorted@.to_multiset_ensures();
    }
    for i in 0..sorted.len()
        invariant
            FIRST_CARD_ID + sorted@.len() <= i64::MAX,
            pairs@.len() == i,
            old_ids(pairs@) == sorted@.take(i as int),
            forall|j: int| 0 <= j < i ==> (#[trigger] pairs@[j]).0 == FIRST_CARD_ID + j,
    {
        let ghost before = pairs@;
        pairs.push((FIRST_CARD_ID + i as i64, sorted[i]));
        proof {
            assert(old_ids(pairs@) =~= old_ids(before).push(sorted@[i as int]));
            assert(sorted@.take(i + 1) =~= sorted@.take(i as int).push(sorted@[i as int]));
        }
    }
    proof {
        assert(sorted@.take(sorted@.len() as int) =~= sorted@);
    }
    pairs
}

/// Where the old ids differ and none is below the first new one, no card moves
/// up; so renumbering in order never runs into an id that is still in use.
pub proof fn renumbering_never_moves_up(old: Seq<i64>, i: int)
    requires
        ordered(old),
        old.no_duplicates(),
        forall|j: int| 0 <= j < old.len() ==> FIRST_CARD_ID <= #[trigger] old[j],
        0 <= i < old.len(),
    ensures
        FIRST_CARD_ID + i <= old[i],
        forall|j: int| i < j < old.len() ==> FIRST_CARD_ID + i < #[trigger] old[j],
    decreases i,
{
    if i > 0 {
        renumbering_never_moves_up(old, i - 1);
        assert(old[i] > FIRST_CARD_ID + (i - 1));
    }
    assert forall|j: int| i < j < old.len() implies FIRST_CARD_ID + i < #[trigger] old[j] by {
        assert(!crate::order::key_less(old[j].key(), old[i].key()));
        assert(old[i] != old[j]);
    }
}

/// Syllables one after the other spell one after the other, an onset first and a
/// nucleus after it.
pub proof fn spelling_goes_syllable_by_syllable(a: Seq<(usize, usize)>, b: Seq<(usize, usize)>)
    ensures
        letters(a + b) == letters(a) + letters(b),
        b.len() == 1 ==> letters(b) == onset_text(b[0].0) + nucleus_text(b[0].1),
    decreases b.len(),
{
    if b.len() == 0 {
        assert(a + b =~= a);
        assert(letters(a) + letters(b) =~= letters(a));
    } else {
        let front = b.drop_last();
        spelling_goes_syllable_by_syllable(a, front);
        assert((a + b).drop_last() =~= a + front);
        assert((a + b).last() == b.last());
        assert(letters(a + b) =~= letters(a) + letters(b));
        if b.len() == 1 {
            assert(front =~= Seq::<(usize, usize)>::empty());
            assert(letters(b) =~= onset_text(b[0].0) + nucleus_text(b[0].1));
        }
    }
}

/// A capital first letter changes that letter only: it is the one 32 places before,
/// as capitals stand to small letters.
pub proof fn capitals_change_the_first_letter_only(word: Seq<char>, i: int)
    requires
        0 <= i < word.len(),
        'a' <= word[0] <= 'z',
    ensures
        capitalized(word).len() == word.len(),
        i > 0 ==> capitalized(word)[i] == word[i],
        capitalized(word)[0] as int + 32 == word[0] as int,
{
}

/// Syllables are drawn one after the other, and each draw goes on from where the one
/// before left the generator: first one of the 17 onsets, then one of the 9 nuclei.
pub proof fn syllables_are_drawn_in_turn(state: Seq<u32>, a: nat, b: nat)
    ensures
        ({
            let first = syllables_of(state, a);
            let second = syllables_of(first.1, b);
            syllables_of(state, a + b) == (first.0 + second.0, second.1)
        }),
        syllables_of(state, a).0.len() == a,
        ({
            let onset = index_draw(state, 17);
            let nucleus = index_draw(onset.1, 9);
            syllables_of(state, 1) == (seq![(onset.0, nucleus.0)], nucleus.1)
        }),
    decreases b,
{
    reveal_with_fuel(syllables_of, 2);
    lemma_syllable_count(state, a);
    let first = syllables_of(state, a);
    if b == 0 {
        assert(first.0 + syllables_of(first.1, 0).0 =~= first.0);
    } else {
        syllables_are_drawn_in_turn(state, a, (b - 1) as nat);
        let front = syllables_of(first.1, (b - 1) as nat);
        let onset = index_draw(front.1, ONSETS);
        let nucleus = index_draw(onset.1, NUCLEI);
        assert((first.0 + front.0).push((onset.0, nucleus.0)) =~= first.0 + front.0.push(
            (onset.0, nucleus.0),
        ));
    }
    let onset = index_draw(state, 17);
    let nucleus = index_draw(onset.1, 9);
    assert(syllables_of(state, 1).0 =~= seq![(onset.0, nucleus.0)]);
}

proof fn lemma_syllable_count(state: Seq<u32>, n: nat)
    ensures
        syllables_of(state, n).0.len() == n,
    decreases n,
{
    if n > 0 {
        lemma_syllable_count(state, (n - 1) as nat);
    }
}

/// The `k`-th word of `n` syllables that a generator in `state` gives, and the state
/// after it.
pub open spec fn nth_word(state: Seq<u32>, n: nat, k: nat) -> (Seq<char>, Seq<u32>)
    decreases k,
{
    let word = pseudoword_of(state, n);
    if k == 0 {
        word
    } else {
        nth_word(word.1, n, (k - 1) as nat)
    }
}

/// A fresh word is the first that is not used: it is one of the generator's words,
/// all before it are used, and it is not. There is none exactly when all of them are
/// used.
pub proof fn a_fresh_word_is_the_first_unused(
    state: Seq<u32>,
    n: nat,
    used: Set<Seq<char>>,
    attempts: nat,
)
    ensures
        fresh_of(state, n, used, attempts) matches Some(found) ==> exists|k: nat|
            k < attempts && #[trigger] nth_word(state, n, k) == found && !used.contains(found.0)
                && (forall|j: nat| j < k ==> used.contains((#[trigger] nth_word(state, n, j)).0)),
        fresh_of(state, n, used, attempts) is None <==> forall|j: nat|
            j < attempts ==> used.contains((#[trigger] nth_word(state, n, j)).0),
    decreases attempts,
{
    if attempts > 0 {
        let word = pseudoword_of(state, n);
        let rest = (attempts - 1) as nat;
        assert(nth_word(state, n, 0) == word);
        if used.contains(word.0) {
            a_fresh_word_is_the_first_unused(word.1, n, used, rest);
            assert forall|j: nat| 0 < j implies #[trigger] nth_word(state, n, j) == nth_word(
                word.1,
                n,
                (j - 1) as nat,
            ) by {}
            if let Some(found) = fresh_of(state, n, used, attempts) {
                let k = choose|k: nat|
                    k < rest && #[trigger] nth_word(word.1, n, k) == found && !used.contains(
                        found.0,
                    ) && (forall|j: nat|
                        j < k ==> used.contains((#[trigger] nth_word(word.1, n, j)).0));
                assert(nth_word(state, n, k + 1) == found);
                assert forall|j: nat| j < k + 1 implies used.contains(
                    (#[trigger] nth_word(state, n, j)).0,
                ) by {
                    if j > 0 {
                        assert(used.contains(nth_word(word.1, n, (j - 1) as nat).0));
                    }
                }
            } else {
                assert forall|j: nat| j < attempts implies used.contains(
                    (#[trigger] nth_word(state, n, j)).0,
                ) by {
                    if j > 0 {
                        assert(used.contains(nth_word(word.1, n, (j - 1) as nat).0));
                    }
                }
            }
            if forall|j: nat| j < attempts ==> used.contains((#[trigger] nth_word(state, n, j)).0) {
                assert forall|j: nat| j < rest implies used.contains(
                    (#[trigger] nth_word(word.1, n, j)).0,
                ) by {
                    assert(nth_word(state, n, j + 1) == nth_word(word.1, n, j));
                }
            }
        }
    }
}

/// The words of card `i` come from that card's own stream: its subject is the first
/// unused word of three syllables, its object the first unused word of two after it.
pub proof fn each_card_draws_its_own_words(seed: u64, n: nat, i: nat)
    requires
        i < n,
        corpus_words(seed, n) is Some,
    ensures
        ({
            let words = corpus_words(seed, n)->0;
            let start = seeded_state(stream_seed(seed, "corpus"@, seq![i as u64]));
            &&& fresh_of(
                start,
                3,
                words.take(2 * i as int).to_set(),
                0xffff_ffff_ffff_ffff,
            ) matches Some(subject)
            &&& words[2 * i as int] == subject.0
            &&& fresh_of(
                subject.1,
                2,
                words.take(2 * i as int + 1).to_set(),
                0xffff_ffff_ffff_ffff,
            ) matches Some(object)
            &&& words[2 * i as int + 1] == object.0
        }),
{
    smaller_corpora_are_prefixes(seed, i + 1, n);
    smaller_corpora_are_prefixes(seed, i, n);
    corpus_words_are_distinct(seed, n);
    let words = corpus_words(seed, n)->0;
    let now = words.take(2 * (i + 1) as int);
    let before = words.take(2 * i as int);
    assert(corpus_words(seed, i + 1) == Some(now));
    assert(corpus_words(seed, i) == Some(before));
    let start = seeded_state(stream_seed(seed, "corpus"@, seq![i as u64]));
    let subject = fresh_of(start, 3, before.to_set(), ATTEMPTS as nat)->0;
    let taken = before.push(subject.0);
    let object = fresh_of(subject.1, 2, taken.to_set(), ATTEMPTS as nat)->0;
    assert(now == taken.push(object.0));
    assert(words[2 * i as int] == now[2 * i as int]);
    assert(words[2 * i as int + 1] == now[2 * i as int + 1]);
    assert(words.take(2 * i as int + 1) =~= taken);
}

/// The questions take turns, and each reads like this.
pub proof fn questions_read_like_this(fact: Fact, words: Seq<Seq<char>>, i: int)
    requires
        0 <= i,
        is_fact(fact, words, i),
    ensures
        fact.answer@ == words[2 * i + 1],
        i % 5 == 0 ==> fact.question@ == "What is the capital of "@ + words[2 * i] + "?"@,
        i % 5 == 1 ==> fact.question@ == "Which element does the symbol "@ + words[2 * i]
            + " stand for?"@,
        i % 5 == 2 ==> fact.question@ == "What does the enzyme "@ + words[2 * i] + " catalyse?"@,
        i % 5 == 3 ==> fact.question@ == "In which year was the Treaty of "@ + words[2 * i]
            + " signed?"@,
        i % 5 == 4 ==> fact.question@ == "What is the currency of "@ + words[2 * i] + "?"@,
{
    lemma_question((i % TEMPLATES as int) as usize, words[2 * i]);
}

/// Old ids are replaced from the lowest on.
pub proof fn renumbering_goes_by_the_old_ids(ids: Seq<i64>, pairs: Seq<(i64, i64)>, i: int, j: int)
    requires
        stable_sort_of(ids, old_ids(pairs)),
        0 <= i < j < pairs.len(),
    ensures
        pairs[i].1 <= pairs[j].1,
        ids.contains(pairs[i].1),
{
    let old = old_ids(pairs);
    assert(old[i] == pairs[i].1 && old[j] == pairs[j].1);
    assert(!crate::order::key_less(old[j].key(), old[i].key()));
    crate::order::lemma_same_items_contained(old, ids, i);
}

} // verus!
