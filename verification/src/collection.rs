//! The collection as the harness sees it: the rows that it reads and changes.

use vstd::prelude::*;

use crate::leakage::CorpusCard;
use crate::order::sorted_by_key;
use crate::order::stable_sort;
use crate::order::stable_sort_of;
use crate::order::Keyed;

verus! {

/// The seconds of a day.
pub const DAY_SECONDS: i64 = 86_400;

/// A due date from here on is a time in seconds, not a day number.
pub const INTRADAY_DUE: i32 = 1_000_000;

/// A card row.
#[derive(Debug, Clone, Copy, PartialEq, Eq, Structural)]
pub struct Card {
    pub id: i64,
    pub note_id: i64,
    pub interval: u32,
    pub due: i32,
    pub last_review_time: Option<i64>,
    /// The bit pattern of the scheduler's stability, once there is one.
    pub stability_bits: Option<u32>,
}

/// A note row.
#[derive(Debug)]
pub struct Note {
    pub id: i64,
    pub fields: Vec<String>,
}

/// A probe row.
#[derive(Debug)]
pub struct Probe {
    pub card_id: i64,
    pub question: String,
    pub answer: String,
}

/// The rows of a collection.
#[derive(Debug)]
pub struct Collection {
    /// When the collection was created, in seconds.
    pub creation_stamp: i64,
    pub cards: Vec<Card>,
    pub notes: Vec<Note>,
    pub probes: Vec<Probe>,
}

impl Keyed for Card {
    open spec fn key(self) -> (int, int) {
        (self.id as int, 0)
    }

    fn precedes(&self, other: &Self) -> (b: bool) {
        self.id < other.id
    }
}

/// The cards in the order of their ids.
pub fn all_cards(col: &Collection) -> (cards: Vec<Card>)
    ensures
        cards@ == sorted_by_key(col.cards@),
        stable_sort_of(col.cards@, cards@),
{
    stable_sort(&col.cards)
}

/// Note `k` is the first with this id.
pub open spec fn is_note_at(notes: Seq<Note>, id: i64, k: int) -> bool {
    &&& 0 <= k < notes.len()
    &&& notes[k].id == id
    &&& forall|j: int| 0 <= j < k ==> (#[trigger] notes[j]).id != id
}

/// A note has this id.
pub open spec fn has_note(notes: Seq<Note>, id: i64) -> bool {
    exists|k: int| is_note_at(notes, id, k)
}

/// The question and answer of each probe of a card, in the order in which they
/// are stored.
pub open spec fn probes_of(probes: Seq<Probe>, card_id: i64) -> Seq<(Seq<char>, Seq<char>)> {
    probes.filter(|p: Probe| p.card_id == card_id).map_values(|p: Probe| (p.question@, p.answer@))
}

/// The texts of a list of question and answer pairs.
pub open spec fn pair_texts(pairs: Seq<(String, String)>) -> Seq<(Seq<char>, Seq<char>)> {
    pairs.map_values(|p: (String, String)| (p.0@, p.1@))
}

/// `entry` holds what the collection says of `card`: the first field of its note
/// and its probes.
pub open spec fn is_corpus_card(col: Collection, card: Card, entry: CorpusCard) -> bool {
    &&& exists|k: int|
        is_note_at(col.notes@, card.note_id, k) && entry.card_q@ == (
        #[trigger] col.notes@[k]).fields@[0]@
    &&& pair_texts(entry.probes@) == probes_of(col.probes@, card.id)
}

/// A card refers to a note that the collection does not have.
#[derive(Debug, Clone, Copy, PartialEq, Eq, Structural)]
pub struct NoteNotFound {
    pub note_id: i64,
}

/// The `i`-th card is the first whose note is missing; its note is `note_id`.
pub open spec fn is_first_without_note(
    cards: Seq<Card>,
    notes: Seq<Note>,
    i: int,
    note_id: i64,
) -> bool {
    &&& 0 <= i < cards.len()
    &&& cards[i].note_id == note_id
    &&& !has_note(notes, note_id)
    &&& forall|j: int| 0 <= j < i ==> has_note(notes, (#[trigger] cards[j]).note_id)
}

/// The first card whose note is missing has note `note_id`.
pub open spec fn first_missing_note(cards: Seq<Card>, notes: Seq<Note>, note_id: i64) -> bool {
    exists|i: int| is_first_without_note(cards, notes, i, note_id)
}

/// Wherever the corpus is read, the note has a first field: reading goes card by
/// card and ends at the first card whose note is missing.
pub open spec fn readable(cards: Seq<Card>, notes: Seq<Note>) -> bool {
    forall|i: int, k: int|
        #![trigger cards[i], notes[k]]
        0 <= i < cards.len() && is_note_at(notes, cards[i].note_id, k) && (forall|j: int|
            0 <= j < i ==> has_note(notes, (#[trigger] cards[j]).note_id))
            ==> notes[k].fields@.len() > 0
}

fn find_note(notes: &Vec<Note>, id: i64) -> (found: Option<usize>)
    ensures
        match found {
            Some(k) => is_note_at(notes@, id, k as int),
            None => !has_note(notes@, id),
        },
{
    for k in 0..notes.len()
        invariant
            forall|j: int| 0 <= j < k ==> (#[trigger] notes@[j]).id != id,
    {
        if notes[k].id == id {
            return Some(k);
        }
    }
    None
}

fn find_probes(probes: &Vec<Probe>, card_id: i64) -> (found: Vec<(String, String)>)
    ensures
        pair_texts(found@) == probes_of(probes@, card_id),
{
    let mut found: Vec<(String, String)> = Vec::new();
    proof {
        reveal(Seq::filter);
        assert(pair_texts(found@) =~= probes_of(probes@.take(0), card_id));
    }
    for i in 0..probes.len()
        invariant
            pair_texts(found@) == probes_of(probes@.take(i as int), card_id),
    {
        let ghost before = pair_texts(found@);
        let ghost kept = probes@.take(i as int).filter(|p: Probe| p.card_id == card_id);
        let ghost next = probes@[i as int];
        proof {
            reveal(Seq::filter);
            assert(probes@.take(i + 1).drop_last() =~= probes@.take(i as int));
        }
        if probes[i].card_id == card_id {
            found.push((probes[i].question.clone(), probes[i].answer.clone()));
            proof {
                assert(pair_texts(found@) =~= before.push((next.question@, next.answer@)));
                assert(kept.push(next).map_values(|p: Probe| (p.question@, p.answer@))
                    =~= before.push((next.question@, next.answer@)));
            }
        }
    }
    proof {
        assert(probes@.take(probes@.len() as int) =~= probes@);
    }
    found
}

/// The corpus in the order of the card ids, with the question and the probes of
/// each card.
pub fn read_corpus(col: &Collection) -> (corpus: Result<Vec<CorpusCard>, NoteNotFound>)
    requires
        readable(sorted_by_key(col.cards@), col.notes@),
    ensures
        match corpus {
            Ok(entries) => {
                let cards = sorted_by_key(col.cards@);
                &&& entries@.len() == cards.len()
                &&& forall|i: int|
                    0 <= i < cards.len() ==> is_corpus_card(*col, cards[i], #[trigger] entries@[i])
            },
            Err(missing) => first_missing_note(sorted_by_key(col.cards@), col.notes@, missing.note_id),
        },
{
    let cards = all_cards(col);
    let mut entries: Vec<CorpusCard> = Vec::new();
    for i in 0..cards.len()
        invariant
            cards@ == sorted_by_key(col.cards@),
            readable(cards@, col.notes@),
            entries@.len() == i,
            forall|j: int|
                0 <= j < i ==> is_corpus_card(*col, cards@[j], #[trigger] entries@[j]),
            forall|j: int| 0 <= j < i ==> has_note(col.notes@, (#[trigger] cards@[j]).note_id),
    {
        let card = cards[i];
        let k = match find_note(&col.notes, card.note_id) {
            Some(k) => k,
            None => {
                proof {
                    assert(is_first_without_note(cards@, col.notes@, i as int, card.note_id));
                }
                let missing = NoteNotFound { note_id: card.note_id };
                return Err(missing);
            },
        };
        proof {
            assert(cards@[i as int] == card);
            assert(is_note_at(col.notes@, card.note_id, k as int));
            assert(col.notes@[k as int].fields@.len() > 0);
        }
        let entry = CorpusCard {
            card_q: col.notes[k].fields[0].clone(),
            probes: find_probes(&col.probes, card.id),
        };
        proof {
            assert(is_note_at(col.notes@, card.note_id, k as int));
            assert(entry.card_q@ == col.notes@[k as int].fields@[0]@);
            assert(is_corpus_card(*col, card, entry));
        }
        entries.push(entry);
    }
    Ok(entries)
}

/// How long before `now` the scheduler last saw a card that it has a memory of.
pub open spec fn review_age(card: Card, now: int) -> Option<int> {
    match (card.stability_bits, card.last_review_time) {
        (Some(_), Some(t)) => Some(
            if now > t {
                now - t
            } else {
                0
            },
        ),
        _ => None,
    }
}

/// How long ago the scheduler last saw the card, in seconds, for a card that it
/// has a memory state of. A review in the future counts as one just now.
pub fn seconds_since_review(card: &Card, now: i64) -> (elapsed: Option<i64>)
    requires
        card.stability_bits is Some ==> (card.last_review_time matches Some(t) ==> i64::MIN <= now
            - t <= i64::MAX),
    ensures
        match elapsed {
            Some(secs) => {
                &&& card.stability_bits is Some
                &&& card.last_review_time matches Some(t)
                &&& secs == if now - t > 0 {
                    now - t
                } else {
                    0
                }
            },
            None => card.stability_bits is None || card.last_review_time is None,
        },
        elapsed is Some == review_age(*card, now as int) is Some,
        elapsed matches Some(secs) ==> review_age(*card, now as int) == Some(secs as int),
{
    if card.stability_bits.is_none() {
        return None;
    }
    match card.last_review_time {
        Some(t) => {
            let secs: i64 = now - t;
            Some(if secs > 0 { secs } else { 0 })
        },
        None => None,
    }
}

/// The card one day later, seen from a clock that does not move: everything that
/// is recorded as a time lies a day further back.
pub open spec fn aged(card: Card) -> Card {
    Card {
        last_review_time: match card.last_review_time {
            Some(t) => Some((t - DAY_SECONDS) as i64),
            None => None,
        },
        due: if card.due >= INTRADAY_DUE {
            (card.due - DAY_SECONDS) as i32
        } else {
            card.due
        },
        ..card
    }
}

/// The card records a time.
pub open spec fn is_timed(card: Card) -> bool {
    card.last_review_time is Some || card.due >= INTRADAY_DUE
}

/// Nothing that the collection records as a time is less than a day from the
/// earliest that can be represented.
pub open spec fn can_age(col: Collection) -> bool {
    &&& col.creation_stamp - DAY_SECONDS >= i64::MIN
    &&& forall|i: int|
        0 <= i < col.cards@.len() ==> ((#[trigger] col.cards@[i]).last_review_time matches Some(t)
            ==> t - DAY_SECONDS >= i64::MIN)
}

fn age(card: Card) -> (older: Card)
    requires
        card.last_review_time matches Some(t) ==> t - DAY_SECONDS >= i64::MIN,
    ensures
        older == aged(card),
{
    let mut older = card;
    if let Some(t) = card.last_review_time {
        older.last_review_time = Some(t - DAY_SECONDS);
    }
    if card.due >= INTRADAY_DUE {
        older.due = card.due - 86_400;
    }
    older
}

/// Moves the collection one day into the future by moving its creation and every
/// recorded review one day into the past. Returns the cards that changed, in the
/// order of their ids.
pub fn advance_one_day(col: &mut Collection) -> (changed: Vec<Card>)
    requires
        can_age(*old(col)),
    ensures
        final(col).creation_stamp == old(col).creation_stamp - DAY_SECONDS,
        final(col).cards@ == old(col).cards@.map_values(|c: Card| aged(c)),
        final(col).notes == old(col).notes,
        final(col).probes == old(col).probes,
        changed@ == sorted_by_key(old(col).cards@).filter(|c: Card| is_timed(c)).map_values(
            |c: Card| aged(c),
        ),
{
    let sorted = all_cards(col);
    let ghost rows = col.cards@;
    proof {
        sorted@.to_multiset_ensures();
        rows.to_multiset_ensures();
        assert forall|i: int| 0 <= i < sorted@.len() implies ((
        #[trigger] sorted@[i]).last_review_time matches Some(t) ==> t - DAY_SECONDS >= i64::MIN) by {
            assert(sorted@.contains(sorted@[i]));
            assert(sorted@.to_multiset().count(sorted@[i]) > 0);
            assert(rows.contains(sorted@[i]));
        }
        reveal(Seq::filter);
    }
    col.creation_stamp = col.creation_stamp - DAY_SECONDS;
    let mut changed: Vec<Card> = Vec::new();
    for i in 0..sorted.len()
        invariant
            forall|i: int|
                0 <= i < sorted@.len() ==> ((#[trigger] sorted@[i]).last_review_time matches Some(t)
                    ==> t - DAY_SECONDS >= i64::MIN),
            changed@ == sorted@.take(i as int).filter(|c: Card| is_timed(c)).map_values(
                |c: Card| aged(c),
            ),
    {
        let card = sorted[i];
        let ghost before = changed@;
        let ghost kept = sorted@.take(i as int).filter(|c: Card| is_timed(c));
        proof {
            reveal(Seq::filter);
            assert(sorted@.take(i + 1).drop_last() =~= sorted@.take(i as int));
        }
        if card.last_review_time.is_some() || card.due >= INTRADAY_DUE {
            changed.push(age(card));
            proof {
                assert(kept.push(card).map_values(|c: Card| aged(c)) =~= before.push(aged(card)));
            }
        }
    }
    proof {
        assert(sorted@.take(sorted@.len() as int) =~= sorted@);
    }
    let count: usize = col.cards.len();
    let mut i: usize = 0;
    while i < count
        invariant
            count == rows.len(),
            col.cards@.len() == count,
            i <= count,
            rows == old(col).cards@,
            can_age(*old(col)),
            col.creation_stamp == old(col).creation_stamp - DAY_SECONDS,
            col.notes == old(col).notes,
            col.probes == old(col).probes,
            forall|j: int| 0 <= j < i ==> #[trigger] col.cards@[j] == aged(rows[j]),
            forall|j: int| i <= j < count ==> #[trigger] col.cards@[j] == rows[j],
        decreases count - i,
    {
        let card = col.cards[i];
        proof {
            assert(old(col).cards@[i as int] == card);
        }
        col.cards.set(i, age(card));
        i = i + 1;
    }
    proof {
        assert(col.cards@ =~= rows.map_values(|c: Card| aged(c)));
    }
    changed
}

/// A day later, whatever the clock says, a review lies exactly a day further
/// back and as far from the creation as before; what records no time stays as it
/// was.
pub proof fn a_day_passes_for_everything_alike(before: Collection, after: Collection, i: int, now: int)
    requires
        can_age(before),
        after.creation_stamp == before.creation_stamp - DAY_SECONDS,
        after.cards@ == before.cards@.map_values(|c: Card| aged(c)),
        0 <= i < before.cards@.len(),
    ensures
        before.cards@[i].last_review_time matches Some(t) ==> {
            &&& after.cards@[i].last_review_time matches Some(u)
            &&& now - u == now - t + DAY_SECONDS
            &&& u - after.creation_stamp == t - before.creation_stamp
        },
        before.cards@[i].due >= INTRADAY_DUE ==> after.cards@[i].due == before.cards@[i].due
            - DAY_SECONDS,
        before.cards@[i].due < INTRADAY_DUE ==> after.cards@[i].due == before.cards@[i].due,
        !is_timed(before.cards@[i]) ==> after.cards@[i] == before.cards@[i],
{
    let card = before.cards@[i];
    assert(after.cards@[i] == aged(card));
}

/// A stored probe more is one more of its own card, after those that it has, and none
/// of any other.
pub proof fn a_stored_probe_belongs_to_its_card(probes: Seq<Probe>, p: Probe, card_id: i64)
    ensures
        probes_of(Seq::<Probe>::empty(), card_id).len() == 0,
        probes_of(probes.push(p), card_id) == if p.card_id == card_id {
            probes_of(probes, card_id).push((p.question@, p.answer@))
        } else {
            probes_of(probes, card_id)
        },
{
    reveal(Seq::filter);
    assert(probes.push(p).drop_last() =~= probes);
    assert(probes_of(probes.push(p), card_id) =~= if p.card_id == card_id {
        probes_of(probes, card_id).push((p.question@, p.answer@))
    } else {
        probes_of(probes, card_id)
    });
}

/// An entry of the corpus asks what the first field of the card's own note says.
pub proof fn an_entry_asks_the_first_field(col: Collection, card: Card, entry: CorpusCard, k: int)
    requires
        is_corpus_card(col, card, entry),
        0 <= k < col.notes@.len(),
        col.notes@[k].id == card.note_id,
        forall|j: int| 0 <= j < col.notes@.len() && j != k ==> (#[trigger] col.notes@[j]).id
            != card.note_id,
    ensures
        entry.card_q@ == col.notes@[k].fields@[0]@,
        entry.probes@.len() == col.probes@.filter(|p: Probe| p.card_id == card.id).len(),
{
    let j = choose|j: int|
        is_note_at(col.notes@, card.note_id, j) && entry.card_q@ == (
        #[trigger] col.notes@[j]).fields@[0]@;
    assert(j == k);
    assert(pair_texts(entry.probes@).len() == entry.probes@.len());
}

/// A day moves a card's review and its due time within a day back by a day, and
/// changes nothing else of it.
pub proof fn a_day_changes_times_only(card: Card)
    requires
        card.last_review_time matches Some(t) ==> t - 86_400 >= i64::MIN,
    ensures
        aged(card).id == card.id,
        aged(card).note_id == card.note_id,
        aged(card).interval == card.interval,
        aged(card).stability_bits == card.stability_bits,
        card.last_review_time is None ==> aged(card).last_review_time is None,
        card.last_review_time matches Some(t) ==> aged(card).last_review_time == Some(
            (t - 86_400) as i64,
        ),
        card.due >= 1_000_000 ==> aged(card).due + 86_400 == card.due,
        card.due < 1_000_000 ==> aged(card).due == card.due,
{
}

/// The cards that are given back as changed are those that a day does change.
pub proof fn changed_cards_are_those_that_change(card: Card)
    requires
        card.last_review_time matches Some(t) ==> t - 86_400 >= i64::MIN,
    ensures
        is_timed(card) <==> aged(card) != card,
{
}

/// Cards are gone through in the order of their ids.
pub proof fn cards_go_by_id(cards: Seq<Card>, sorted: Seq<Card>, i: int, j: int)
    requires
        stable_sort_of(cards, sorted),
        0 <= i < j < sorted.len(),
    ensures
        sorted.to_multiset() == cards.to_multiset(),
        sorted[i].id <= sorted[j].id,
{
}

/// The note that is missing is that of a card whose note no row has, and every card
/// with a lower place in the order has its note.
pub proof fn a_missing_note_is_really_missing(cards: Seq<Card>, notes: Seq<Note>, note_id: i64)
    requires
        first_missing_note(cards, notes, note_id),
    ensures
        forall|k: int| 0 <= k < notes.len() ==> (#[trigger] notes[k]).id != note_id,
        exists|i: int| 0 <= i < cards.len() && (#[trigger] cards[i]).note_id == note_id,
{
    let i = choose|i: int| is_first_without_note(cards, notes, i, note_id);
    assert(cards[i].note_id == note_id);
    if exists|k: int| 0 <= k < notes.len() && (#[trigger] notes[k]).id == note_id {
        let k = choose|k: int| 0 <= k < notes.len() && (#[trigger] notes[k]).id == note_id;
        lemma_note_is_found(notes, note_id, k);
    }
}

proof fn lemma_note_is_found(notes: Seq<Note>, id: i64, k: int)
    requires
        0 <= k < notes.len(),
        notes[k].id == id,
    ensures
        has_note(notes, id),
    decreases k,
{
    if exists|j: int| 0 <= j < k && (#[trigger] notes[j]).id == id {
        let j = choose|j: int| 0 <= j < k && (#[trigger] notes[j]).id == id;
        lemma_note_is_found(notes, id, j);
    } else {
        assert(is_note_at(notes, id, k));
    }
}

/// The age of a review is told where the card has both a memory and a review, and it
/// is never negative: at or after the review it is the time that has passed, so with
/// every second it grows by one, and with every day that the card ages by a day.
pub proof fn reviews_age_with_the_clock(card: Card, now: int, more: int)
    requires
        0 <= more,
        card.last_review_time matches Some(t) ==> t - 86_400 >= i64::MIN,
    ensures
        review_age(card, now) is Some <==> card.stability_bits is Some && card.last_review_time
            is Some,
        review_age(card, now) matches Some(age) ==> {
            &&& age >= 0
            &&& now <= card.last_review_time->0 ==> age == 0
            &&& now >= card.last_review_time->0 ==> card.last_review_time->0 + age == now
            &&& now >= card.last_review_time->0 ==> review_age(card, now + more) == Some(age + more)
            &&& now >= card.last_review_time->0 ==> review_age(aged(card), now) == Some(
                age + 86_400,
            )
        },
{
}

/// The corpus has an entry for every card row and no more, in the order of the ids.
pub proof fn the_corpus_has_an_entry_for_every_card(col: Collection, cards: Seq<Card>, i: int)
    requires
        stable_sort_of(col.cards@, cards),
        0 <= i < col.cards@.len(),
    ensures
        cards.len() == col.cards@.len(),
        cards == sorted_by_key(col.cards@),
        exists|k: int| 0 <= k < cards.len() && #[trigger] cards[k] == col.cards@[i],
{
    crate::order::stable_sort_has_one_result(col.cards@, cards);
    crate::order::lemma_same_items_contained(col.cards@, cards, i);
}

} // verus!
