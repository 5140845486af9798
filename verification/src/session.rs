//! One learner studying one arm: what is served, what is graded, what is
//! recorded.
//!
//! The scheduler, the learner's memory and the random draws live outside. A
//! session says which day comes next, turns each served card into a [`Turn`],
//! grades it and keeps the record.

use rand::rngs::StdRng;
use vstd::prelude::*;
use vstd::utf8::is_ascii_chars;

use crate::collection::Card;
use crate::collection::INTRADAY_DUE;
use crate::config::AblationConfig;
use crate::config::FIRST_CARD_ID;
use crate::number::Double;
use crate::number::DOUBLE_ONE;
use crate::number::DOUBLE_ZERO;
use crate::order::key_less;
use crate::order::lemma_same_items_contained;
use crate::order::lemma_same_items_same_count;
use crate::order::lemma_with_key_is_filter;
use crate::order::ordered;
use crate::order::sorted_by_key;
use crate::order::stable_order_is_unique;
use crate::order::stable_sort;
use crate::order::stable_sort_of;
use crate::order::with_key;
use crate::order::Keyed;
use crate::stream::generator_state;
use crate::stream::rng_for;
use crate::stream::seeded_state;
use crate::stream::short_namespaces_fit;
use crate::stream::stream_seed;
use crate::stream::streams_are_seeded_apart;

verus! {

/// Everything measured about one answered review.
#[derive(Debug, Clone, Copy, PartialEq, Eq, Structural)]
pub struct Review {
    pub day: u32,
    pub card: usize,
    pub first_exposure: bool,
    /// A short-term learning step: a re-study minutes after a failure, not a
    /// scheduled recall test.
    pub relearn: bool,
    pub probe_shown: bool,
    pub passed: bool,
    /// The scheduler's retrievability when the card was served, in millionths.
    /// None before the first review.
    pub sched_r_micro: Option<u32>,
    pub interval_after: u32,
    pub due_after: i32,
    pub stability_after_bits: u32,
}

impl Keyed for Review {
    open spec fn key(self) -> (int, int) {
        (self.day as int, self.card as int)
    }

    fn precedes(&self, other: &Self) -> (b: bool) {
        self.day < other.day || (self.day == other.day && self.card < other.card)
    }
}

/// The queue that a card was served from.
#[derive(Debug, Clone, Copy, PartialEq, Eq, Structural)]
pub enum QueueKind {
    New,
    Learning,
    Review,
}

/// A card as the scheduler serves it.
#[derive(Debug, Clone, Copy, PartialEq, Eq, Structural)]
pub struct Served {
    pub card_id: i64,
    pub kind: QueueKind,
    /// The id of the probe that takes the card's place, if one does.
    pub probe: Option<i64>,
    pub sched_r_micro: Option<u32>,
}

/// A served card as the session sees it.
#[derive(Debug, Clone, Copy, PartialEq, Eq, Structural)]
pub struct Turn {
    pub day: u32,
    pub card: usize,
    /// The learner reads the answer: a study event, graded as passed.
    pub first_exposure: bool,
    pub relearn: bool,
    pub probe_shown: bool,
    /// How many days ago the learner last met the card.
    pub elapsed: u32,
    pub sched_r_micro: Option<u32>,
}

/// The grade that is handed to the scheduler.
#[derive(Debug, Clone, Copy, PartialEq, Eq, Structural)]
pub enum Rating {
    Again,
    Good,
}

/// The answer that is handed to the scheduler.
#[derive(Debug, Clone, Copy, PartialEq, Eq, Structural)]
pub struct Answer {
    pub card_id: i64,
    pub rating: Rating,
    pub milliseconds_taken: u32,
    pub milliseconds_to_reveal: u32,
    pub variant_id: Option<i64>,
    pub from_queue: bool,
}

/// A day that starts.
#[derive(Debug, Clone, Copy, PartialEq, Eq, Structural)]
pub struct DayStart {
    pub day: u32,
    /// The collection has to be moved on by a day first.
    pub advance: bool,
}

/// More cards were answered on one day than can be meant.
#[derive(Debug, Clone, Copy, PartialEq, Eq, Structural)]
pub struct RunawayDay {
    pub day: u32,
}

/// How many answers a day may have.
pub const DAY_LIMIT: u32 = 10_000;

/// Recorded in place of a due date within the day.
pub const WITHIN_DAY: i32 = -1;

/// The reviews of one card, in their order.
pub open spec fn chronology(reviews: Seq<Review>, card: int) -> Seq<Review> {
    reviews.filter(|r: Review| r.card == card)
}

/// The day on which a card was last reviewed.
pub open spec fn last_day(reviews: Seq<Review>, card: int) -> u32 {
    chronology(reviews, card).last().day
}

/// The card has been studied for the first time.
pub open spec fn exposed(reviews: Seq<Review>, card: int) -> bool {
    exists|i: int|
        0 <= i < reviews.len() && (#[trigger] reviews[i]).card == card && reviews[i].first_exposure
}

/// Reviews stand in the order of their days.
pub open spec fn day_ordered(reviews: Seq<Review>) -> bool {
    forall|i: int, j: int|
        #![trigger reviews[i], reviews[j]]
        0 <= i <= j < reviews.len() ==> reviews[i].day <= reviews[j].day
}

/// How many reviews a day had.
pub open spec fn day_count(reviews: Seq<Review>, day: int) -> nat {
    reviews.filter(|r: Review| r.day == day).len()
}

/// What holds of every review of a record: it belongs to a day and a card of the
/// experiment, it holds no time of the wall clock, and a first exposure is passed,
/// is no re-study and shows no probe.
pub open spec fn is_sound(r: Review, days: u32, cards: nat) -> bool {
    &&& r.day < days
    &&& r.card < cards
    &&& r.due_after < INTRADAY_DUE
    &&& r.first_exposure ==> r.passed && !r.relearn && !r.probe_shown
}

/// Every review of a record is sound, and no day has more than it may.
pub open spec fn well_kept(reviews: Seq<Review>, days: u32, cards: nat) -> bool {
    &&& forall|i: int| 0 <= i < reviews.len() ==> is_sound(#[trigger] reviews[i], days, cards)
    &&& forall|d: int| #[trigger] day_count(reviews, d) <= DAY_LIMIT
}

/// No card is tested before it was studied.
pub open spec fn studied_before_tested(reviews: Seq<Review>) -> bool {
    forall|i: int|
        0 <= i < reviews.len() ==> (#[trigger] reviews[i]).first_exposure || exposed(
            reviews.take(i),
            reviews[i].card as int,
        )
}

/// What a session stands at.
pub struct SessionView {
    pub seed: u64,
    pub learner: usize,
    pub days: u32,
    /// How many cards there are.
    pub cards: nat,
    /// How many days have started.
    pub started: u32,
    /// How many cards were served on the current day.
    pub served: u32,
    /// The turn that was taken up last, until it is recorded.
    pub pending: Option<Turn>,
    pub reviews: Seq<Review>,
}

/// A learner at work on an arm.
pub struct ArmSession {
    seed: u64,
    learner: usize,
    days: u32,
    started: u32,
    served: u32,
    pending: Option<Turn>,
    seen: Vec<bool>,
    draws: Vec<u64>,
    last: Vec<u32>,
    reviews: Vec<Review>,
}

impl View for ArmSession {
    type V = SessionView;

    closed spec fn view(&self) -> SessionView {
        SessionView {
            seed: self.seed,
            learner: self.learner,
            days: self.days,
            cards: self.seen@.len(),
            started: self.started,
            served: self.served,
            pending: self.pending,
            reviews: self.reviews@,
        }
    }
}

/// The index of a card in the corpus.
pub open spec fn card_index(card_id: i64) -> int {
    card_id - FIRST_CARD_ID
}

/// The session can go on with this card: it belongs to the corpus, and it is
/// either new or was studied before.
pub open spec fn serviceable(v: SessionView, s: Served) -> bool {
    &&& 0 <= card_index(s.card_id) < v.cards
    &&& s.kind == QueueKind::New || exposed(v.reviews, card_index(s.card_id))
}

/// What the session makes of a served card.
pub open spec fn turn_of(v: SessionView, s: Served) -> Turn {
    Turn {
        day: (v.started - 1) as u32,
        card: card_index(s.card_id) as usize,
        first_exposure: s.kind == QueueKind::New,
        relearn: s.kind == QueueKind::Learning,
        probe_shown: s.kind != QueueKind::New && s.probe is Some,
        elapsed: if s.kind == QueueKind::New {
            0
        } else {
            (v.started - 1 - last_day(v.reviews, card_index(s.card_id))) as u32
        },
        sched_r_micro: s.sched_r_micro,
    }
}

/// What is recorded of a turn, given the card as the scheduler left it. A due
/// date within the day is a time of the wall clock; only that it was one is
/// kept.
pub open spec fn review_of(t: Turn, passed: bool, after: Card) -> Review {
    Review {
        day: t.day,
        card: t.card,
        first_exposure: t.first_exposure,
        relearn: t.relearn,
        probe_shown: t.probe_shown,
        passed,
        sched_r_micro: t.sched_r_micro,
        interval_after: after.interval,
        due_after: if after.due >= INTRADAY_DUE {
            WITHIN_DAY
        } else {
            after.due
        },
        stability_after_bits: match after.stability_bits {
            Some(bits) => bits,
            None => 0,
        },
    }
}

/// The session before its first day.
pub open spec fn at_start(cfg: AblationConfig, learner: usize, cards: nat) -> SessionView {
    SessionView {
        seed: cfg.seed,
        learner,
        days: cfg.days,
        cards,
        started: 0,
        served: 0,
        pending: None,
        reviews: Seq::empty(),
    }
}

/// The session on its next day, where there is one.
pub open spec fn day_started(v: SessionView) -> SessionView {
    if v.started < v.days {
        SessionView { started: (v.started + 1) as u32, served: 0, pending: None, ..v }
    } else {
        v
    }
}

/// The day that starts next, where there is one.
pub open spec fn start_of(v: SessionView) -> Option<DayStart> {
    if v.started < v.days {
        Some(DayStart { day: v.started, advance: v.started > 0 })
    } else {
        None
    }
}

/// The session with a served card taken up, unless the day is full.
pub open spec fn taken_up(v: SessionView, s: Served) -> SessionView {
    if v.served < DAY_LIMIT {
        SessionView { served: (v.served + 1) as u32, pending: Some(turn_of(v, s)), ..v }
    } else {
        v
    }
}

/// The session with a turn recorded.
pub open spec fn recorded(v: SessionView, t: Turn, passed: bool, after: Card) -> SessionView {
    SessionView { pending: None, reviews: v.reviews.push(review_of(t, passed, after)), ..v }
}

/// What seeds the draw that decides the next review of a card.
pub open spec fn outcome_seed(v: SessionView, card: int) -> u64 {
    stream_seed(
        v.seed,
        "outcome"@,
        seq![v.learner as u64, card as u64, chronology(v.reviews, card).len() as u64],
    )
}

impl ArmSession {
    /// What the session keeps track of agrees with its record.
    pub closed spec fn wf(&self) -> bool {
        &&& self.draws@.len() == self.seen@.len()
        &&& self.last@.len() == self.seen@.len()
        &&& self.started <= self.days
        &&& forall|c: int|
            0 <= c < self.draws@.len() ==> #[trigger] self.draws@[c] == chronology(
                self.reviews@,
                c,
            ).len()
        &&& forall|c: int|
            0 <= c < self.last@.len() && chronology(self.reviews@, c).len() > 0
                ==> #[trigger] self.last@[c] == last_day(self.reviews@, c)
        &&& forall|c: int|
            0 <= c < self.seen@.len() ==> #[trigger] self.seen@[c] == exposed(self.reviews@, c)
        &&& forall|i: int|
            0 <= i < self.reviews@.len() ==> (#[trigger] self.reviews@[i]).day < self.started
        &&& day_ordered(self.reviews@)
        &&& well_kept(self.reviews@, self.days, self.seen@.len())
        &&& studied_before_tested(self.reviews@)
        &&& self.served <= DAY_LIMIT
        &&& self.started > 0 ==> day_count(self.reviews@, self.started - 1) + (if self.pending is Some {
            1int
        } else {
            0int
        }) <= self.served
        &&& self.pending matches Some(t) ==> {
            &&& self.started > 0
            &&& t.day == self.started - 1
            &&& t.card < self.seen@.len()
            &&& t.first_exposure || self.seen@[t.card as int]
            &&& t.first_exposure ==> !t.relearn && !t.probe_shown
        }
    }

    /// A session before its first day.
    pub fn new(cfg: &AblationConfig, learner: usize, n_cards: usize) -> (s: ArmSession)
        ensures
            s.wf(),
            s@ == at_start(*cfg, learner, n_cards as nat),
    {
        let mut seen: Vec<bool> = Vec::new();
        let mut draws: Vec<u64> = Vec::new();
        let mut last: Vec<u32> = Vec::new();
        for i in 0..n_cards
            invariant
                seen@.len() == i,
                draws@.len() == i,
                last@.len() == i,
                forall|c: int| 0 <= c < i ==> !(#[trigger] seen@[c]),
                forall|c: int| 0 <= c < i ==> #[trigger] draws@[c] == 0,
        {
            seen.push(false);
            draws.push(0);
            last.push(0);
        }
        let reviews: Vec<Review> = Vec::new();
        proof {
            reveal(Seq::filter);
        }
        ArmSession {
            seed: cfg.seed,
            learner,
            days: cfg.days,
            started: 0,
            served: 0,
            pending: None,
            seen,
            draws,
            last,
            reviews,
        }
    }

    /// Starts the next day, if there is one.
    pub fn start_day(&mut self) -> (start: Option<DayStart>)
        requires
            old(self).wf(),
        ensures
            final(self).wf(),
            final(self)@ == day_started(old(self)@),
            start == start_of(old(self)@),
            start == if old(self)@.started < old(self)@.days {
                Some(DayStart { day: old(self)@.started, advance: old(self)@.started > 0 })
            } else {
                None
            },
    {
        if self.started < self.days {
            let day: u32 = self.started;
            self.started = day + 1;
            self.served = 0;
            self.pending = None;
            proof {
                lemma_no_reviews_yet(self.reviews@, day as int);
            }
            Some(DayStart { day, advance: day > 0 })
        } else {
            None
        }
    }

    /// Whether the day has had as many cards as it may.
    pub fn day_is_full(&self) -> (b: bool)
        ensures
            b == (self@.served >= DAY_LIMIT),
    {
        self.served >= DAY_LIMIT
    }

    /// Whether the session can go on with this card.
    pub fn can_serve(&self, s: &Served) -> (b: bool)
        requires
            self.wf(),
        ensures
            b == serviceable(self@, *s),
    {
        if s.card_id < FIRST_CARD_ID {
            return false;
        }
        let offset: u64 = (s.card_id - FIRST_CARD_ID) as u64;
        if offset >= self.seen.len() as u64 {
            return false;
        }
        matches!(s.kind, QueueKind::New) || self.seen[offset as usize]
    }

    /// Takes up a served card.
    pub fn serve(&mut self, s: &Served) -> (turn: Result<Turn, RunawayDay>)
        requires
            old(self).wf(),
            old(self)@.started > 0,
            old(self)@.served < DAY_LIMIT ==> serviceable(old(self)@, *s),
        ensures
            final(self).wf(),
            final(self)@ == taken_up(old(self)@, *s),
            old(self)@.served < DAY_LIMIT ==> turn == Ok::<Turn, RunawayDay>(
                turn_of(old(self)@, *s),
            ),
            old(self)@.served >= DAY_LIMIT ==> turn == Err::<Turn, RunawayDay>(
                RunawayDay { day: (old(self)@.started - 1) as u32 },
            ),
    {
        let day: u32 = self.started - 1;
        if self.served >= DAY_LIMIT {
            return Err(RunawayDay { day });
        }
        self.served = self.served + 1;
        let new: bool = matches!(s.kind, QueueKind::New);
        let card: usize = (s.card_id - FIRST_CARD_ID) as usize;
        proof {
            if !new {
                lemma_exposed_has_chronology(self.reviews@, card as int);
                let own = chronology(self.reviews@, card as int);
                lemma_chronology_is_ordered(self.reviews@, card as int);
                assert(self.reviews@.contains(own[own.len() - 1]));
                assert(self.last@[card as int] == own.last().day);
            }
        }
        let turn = Turn {
            day,
            card,
            first_exposure: new,
            relearn: matches!(s.kind, QueueKind::Learning),
            probe_shown: !new && s.probe.is_some(),
            elapsed: if new { 0 } else { day - self.last[card] },
            sched_r_micro: s.sched_r_micro,
        };
        self.pending = Some(turn);
        Ok(turn)
    }

    /// The stream that decides the next review of a card: one draw for each
    /// learner, card and event.
    pub fn outcome_rng(&self, card: usize) -> (rng: StdRng)
        requires
            self.wf(),
            card < self@.cards,
        ensures
            generator_state(rng) == seeded_state(outcome_seed(self@, card as int)),
    {
        proof {
            reveal_strlit("outcome");
            assert(is_ascii_chars("outcome"@));
            short_namespaces_fit("outcome"@);
        }
        let parts: [u64; 3] = [self.learner as u64, card as u64, self.draws[card]];
        proof {
            assert(parts@ =~= seq![
                self.learner as u64,
                card as u64,
                chronology(self.reviews@, card as int).len() as u64,
            ]);
        }
        rng_for(self.seed, "outcome", &parts)
    }

    /// Records the answer to the turn that was taken up last, given the card as the
    /// scheduler left it.
    pub fn record(&mut self, turn: Turn, passed: bool, after: &Card)
        requires
            old(self).wf(),
            old(self)@.pending == Some(turn),
            turn.first_exposure ==> passed,
        ensures
            final(self).wf(),
            final(self)@ == recorded(old(self)@, turn, passed, *after),
    {
        let ghost before = self.reviews@;
        let review = Review {
            day: turn.day,
            card: turn.card,
            first_exposure: turn.first_exposure,
            relearn: turn.relearn,
            probe_shown: turn.probe_shown,
            passed,
            sched_r_micro: turn.sched_r_micro,
            interval_after: after.interval,
            due_after: if after.due >= INTRADAY_DUE { WITHIN_DAY } else { after.due },
            stability_after_bits: match after.stability_bits {
                Some(bits) => bits,
                None => 0,
            },
        };
        self.pending = None;
        self.reviews.push(review);
        let count: usize = self.reviews.len();
        let card: usize = turn.card;
        proof {
            assert(before.push(review).drop_last() =~= before);
            before.lemma_filter_len(|r: Review| r.card == card);
            assert(self.draws@[card as int] == chronology(before, card as int).len());
            assert(chronology(before, card as int).len() < count);
        }
        let next: u64 = self.draws[card] + 1;
        self.draws.set(card, next);
        self.last.set(card, turn.day);
        if turn.first_exposure {
            self.seen.set(card, true);
        }
        proof {
            let now = self.reviews@;
            assert forall|c: int| 0 <= c < self.draws@.len() implies #[trigger] self.draws@[c]
                == chronology(now, c).len() by {
                reveal(Seq::filter);
                assert(now.drop_last() =~= before);
            }
            assert forall|c: int|
                0 <= c < self.last@.len() && chronology(now, c).len() > 0 implies #[trigger] self.last@[c]
                == last_day(now, c) by {
                reveal(Seq::filter);
                assert(now.drop_last() =~= before);
            }
            assert forall|c: int| 0 <= c < self.seen@.len() implies #[trigger] self.seen@[c]
                == exposed(now, c) by {
                lemma_exposed_after_push(before, review, c);
            }
            lemma_kept_after_push(before, review, self.days, self.seen@.len(), self.started - 1);
            lemma_studied_after_push(before, review);
            assert forall|i: int, j: int|
                #![trigger now[i], now[j]]
                0 <= i <= j < now.len() implies now[i].day <= now[j].day by {
                if i < before.len() {
                    assert(now[i] == before[i]);
                }
                if j < before.len() {
                    assert(now[j] == before[j]);
                }
            }
        }
    }

    /// How many answered reviews the record holds.
    pub fn review_count(&self) -> (n: usize)
        ensures
            n == self@.reviews.len(),
    {
        self.reviews.len()
    }

    /// Ends the session: the record in the order of days and cards. The order
    /// within a day may depend on the clock; that of one card's reviews does not,
    /// and it is kept.
    pub fn finish(self) -> (reviews: Vec<Review>)
        requires
            self.wf(),
        ensures
            reviews@ == sorted_by_key(self@.reviews),
            stable_sort_of(self@.reviews, reviews@),
            day_ordered(self@.reviews),
            studied_before_tested(self@.reviews),
            studied_before_tested(reviews@),
            well_kept(reviews@, self@.days, self@.cards),
    {
        let record = stable_sort(&self.reviews);
        proof {
            lemma_kept_in_any_order(self.reviews@, record@, self.days, self.seen@.len());
            sorting_keeps_study_before_tests(self.reviews@, record@);
        }
        record
    }
}

/// At any time, a session's record is sound, no day of it has more reviews than it
/// may, no card was tested before it was studied, and its reviews stand in the
/// order of their days.
pub proof fn a_session_keeps_its_record(s: ArmSession)
    requires
        s.wf(),
    ensures
        well_kept(s@.reviews, s@.days, s@.cards),
        studied_before_tested(s@.reviews),
        day_ordered(s@.reviews),
        s@.served <= DAY_LIMIT,
        s@.started <= s@.days,
{
}

/// A day that is later than every review has none.
proof fn lemma_no_reviews_yet(reviews: Seq<Review>, day: int)
    requires
        forall|i: int| 0 <= i < reviews.len() ==> (#[trigger] reviews[i]).day < day,
    ensures
        day_count(reviews, day) == 0,
    decreases reviews.len(),
{
    reveal(Seq::filter);
    if reviews.len() > 0 {
        let front = reviews.drop_last();
        assert forall|i: int| 0 <= i < front.len() implies (#[trigger] front[i]).day < day by {
            assert(front[i] == reviews[i]);
        }
        lemma_no_reviews_yet(front, day);
        assert(reviews[reviews.len() - 1].day < day);
    }
}

proof fn lemma_kept_after_push(reviews: Seq<Review>, r: Review, days: u32, cards: nat, day: int)
    requires
        well_kept(reviews, days, cards),
        is_sound(r, days, cards),
        r.day == day,
        day_count(reviews, day) < DAY_LIMIT,
    ensures
        well_kept(reviews.push(r), days, cards),
        day_count(reviews.push(r), day) == day_count(reviews, day) + 1,
{
    let now = reviews.push(r);
    assert forall|d: int| #[trigger] day_count(now, d) == day_count(reviews, d) + if r.day == d {
        1nat
    } else {
        0nat
    } by {
        reveal(Seq::filter);
        assert(now.drop_last() =~= reviews);
    }
    assert forall|d: int| #[trigger] day_count(now, d) <= DAY_LIMIT by {
        assert(day_count(reviews, d) <= DAY_LIMIT);
    }
    assert forall|i: int| 0 <= i < now.len() implies is_sound(#[trigger] now[i], days, cards) by {
        if i < reviews.len() {
            assert(now[i] == reviews[i]);
        }
    }
}

proof fn lemma_studied_after_push(reviews: Seq<Review>, r: Review)
    requires
        studied_before_tested(reviews),
        r.first_exposure || exposed(reviews, r.card as int),
    ensures
        studied_before_tested(reviews.push(r)),
{
    let now = reviews.push(r);
    assert forall|i: int| 0 <= i < now.len() implies (#[trigger] now[i]).first_exposure || exposed(
        now.take(i),
        now[i].card as int,
    ) by {
        assert(now.take(i) =~= reviews.take(i));
        if i < reviews.len() {
            assert(now[i] == reviews[i]);
        } else {
            assert(reviews.take(i) =~= reviews);
        }
    }
}

proof fn lemma_kept_in_any_order(a: Seq<Review>, b: Seq<Review>, days: u32, cards: nat)
    requires
        well_kept(a, days, cards),
        a.to_multiset() == b.to_multiset(),
    ensures
        well_kept(b, days, cards),
{
    assert forall|d: int| #[trigger] day_count(b, d) <= DAY_LIMIT by {
        lemma_same_items_same_count(a, b, |r: Review| r.day == d);
        assert(day_count(a, d) <= DAY_LIMIT);
    }
    assert forall|i: int| 0 <= i < b.len() implies is_sound(#[trigger] b[i], days, cards) by {
        lemma_same_items_contained(b, a, i);
    }
}

/// A card that was studied has reviews.
proof fn lemma_exposed_has_chronology(reviews: Seq<Review>, card: int)
    requires
        exposed(reviews, card),
    ensures
        chronology(reviews, card).len() > 0,
{
    let i = choose|i: int|
        0 <= i < reviews.len() && (#[trigger] reviews[i]).card == card && reviews[i].first_exposure;
    reviews.lemma_filter_contains(|r: Review| r.card == card, i);
}

proof fn lemma_exposed_after_push(reviews: Seq<Review>, r: Review, card: int)
    ensures
        exposed(reviews.push(r), card) == (exposed(reviews, card) || (r.card == card
            && r.first_exposure)),
{
    let now = reviews.push(r);
    if exposed(reviews, card) {
        let i = choose|i: int|
            0 <= i < reviews.len() && (#[trigger] reviews[i]).card == card
                && reviews[i].first_exposure;
        assert(now[i] == reviews[i]);
    }
    if r.card == card && r.first_exposure {
        assert(now[reviews.len() as int] == r);
    }
    if exposed(now, card) {
        let i = choose|i: int|
            0 <= i < now.len() && (#[trigger] now[i]).card == card && now[i].first_exposure;
        if i < reviews.len() {
            assert(reviews[i] == now[i]);
        }
    }
}

/// What decides a recall: a uniform draw from `[0, 1)`, the learner's retention,
/// and what of it survives the rewording of a probe.
#[derive(Debug, Clone, Copy, PartialEq, Eq, Structural)]
pub struct Outcome {
    pub draw: Double,
    pub card_chance: Double,
    pub probe_chance: Double,
}

/// The draw falls below the chance of the question that was shown.
pub open spec fn recall_passed(probe_shown: bool, outcome: Outcome) -> bool {
    outcome.draw.less(
        if probe_shown {
            outcome.probe_chance
        } else {
            outcome.card_chance
        },
    )
}

/// The grade of a turn: a first exposure is passed, a recall is decided by its
/// outcome.
pub open spec fn graded(t: Turn, outcome: Option<Outcome>) -> bool {
    t.first_exposure || recall_passed(t.probe_shown, outcome->0)
}

/// Grades a turn. A first exposure is passed; a recall is decided by its
/// outcome.
pub fn grade(turn: &Turn, outcome: &Option<Outcome>) -> (passed: bool)
    requires
        turn.first_exposure || outcome is Some,
    ensures
        passed == graded(*turn, *outcome),
        passed == (turn.first_exposure || recall_passed(turn.probe_shown, outcome->0)),
{
    if turn.first_exposure {
        return true;
    }
    match outcome {
        Some(o) => o.draw.is_less(if turn.probe_shown { o.probe_chance } else { o.card_chance }),
        None => true,
    }
}

/// What is handed to the scheduler.
pub open spec fn answer_of(s: Served, passed: bool) -> Answer {
    Answer {
        card_id: s.card_id,
        rating: if passed {
            Rating::Good
        } else {
            Rating::Again
        },
        milliseconds_taken: 3000,
        milliseconds_to_reveal: 1500,
        variant_id: s.probe,
        from_queue: true,
    }
}

/// The answer to a served card.
pub fn answer(s: &Served, passed: bool) -> (a: Answer)
    ensures
        a == answer_of(*s, passed),
{
    Answer {
        card_id: s.card_id,
        rating: if passed { Rating::Good } else { Rating::Again },
        milliseconds_taken: 3000,
        milliseconds_to_reveal: 1500,
        variant_id: s.probe,
        from_queue: true,
    }
}

/// What seeds the stream that a learner's memory of a card is drawn from.
pub open spec fn memory_seed(seed: u64, learner: usize, card: usize) -> u64 {
    stream_seed(seed, "learner"@, seq![learner as u64, card as u64])
}

/// The stream that a learner's memory of a card is drawn from.
pub fn memory_rng(cfg: &AblationConfig, learner: usize, card: usize) -> (rng: StdRng)
    ensures
        generator_state(rng) == seeded_state(memory_seed(cfg.seed, learner, card)),
{
    proof {
        reveal_strlit("learner");
        assert(is_ascii_chars("learner"@));
        short_namespaces_fit("learner"@);
    }
    let parts: [u64; 2] = [learner as u64, card as u64];
    proof {
        assert(parts@ =~= seq![learner as u64, card as u64]);
    }
    rng_for(cfg.seed, "learner", &parts)
}

/// The draw makes a pair of a learner and a card one learned by rote.
pub open spec fn is_rote(cfg: AblationConfig, draw: Double) -> bool {
    draw.less(cfg.rote_fraction)
}

/// Whether a learner learns a card by rote, given the draw that decides it.
pub fn learned_by_rote(cfg: &AblationConfig, draw: Double) -> (rote: bool)
    ensures
        rote == is_rote(*cfg, draw),
{
    draw.is_less(cfg.rote_fraction)
}

/// Settings that differ in the rote fraction only draw the same memories, and
/// under the larger fraction every pair is learned by rote that was before.
pub proof fn a_larger_fraction_keeps_rote_pairs(
    a: AblationConfig,
    b: AblationConfig,
    learner: usize,
    card: usize,
    draw: Double,
)
    requires
        b == (AblationConfig { rote_fraction: b.rote_fraction, ..a }),
        a.rote_fraction.at_most(b.rote_fraction),
    ensures
        memory_seed(a.seed, learner, card) == memory_seed(b.seed, learner, card),
        is_rote(a, draw) ==> is_rote(b, draw),
{
}

/// With a draw from `[0, 1)`, a fraction of zero or less makes no pair one learned
/// by rote, and a fraction of one or more makes every pair one.
pub proof fn extreme_fractions_decide(cfg: AblationConfig, draw: Double)
    requires
        (Double { bits: DOUBLE_ZERO }).at_most(draw),
        draw.less(Double { bits: DOUBLE_ONE }),
    ensures
        cfg.rote_fraction.at_most(Double { bits: DOUBLE_ZERO }) ==> !is_rote(cfg, draw),
        (Double { bits: DOUBLE_ONE }).at_most(cfg.rote_fraction) ==> is_rote(cfg, draw),
{
}

/// Taking the items that satisfy one predicate and of these the ones that satisfy
/// another is taking those that satisfy both.
proof fn lemma_filter_twice(
    s: Seq<Review>,
    p: spec_fn(Review) -> bool,
    q: spec_fn(Review) -> bool,
    both: spec_fn(Review) -> bool,
)
    requires
        forall|r: Review| #[trigger] both(r) == (p(r) && q(r)),
    ensures
        s.filter(p).filter(q) == s.filter(both),
    decreases s.len(),
{
    reveal(Seq::filter);
    if s.len() > 0 {
        let front = s.drop_last();
        lemma_filter_twice(front, p, q, both);
        assert(both(s.last()) == (p(s.last()) && q(s.last())));
        if p(s.last()) {
            assert(front.filter(p).push(s.last()).drop_last() =~= front.filter(p));
        }
    }
}

/// The reviews of one day and card are those of the day among those of the card.
proof fn lemma_key_in_chronology(s: Seq<Review>, day: int, card: int)
    ensures
        with_key(s, (day, card)) == chronology(s, card).filter(|r: Review| r.day == day),
        with_key(chronology(s, card), (day, card)) == with_key(s, (day, card)),
{
    let of_card = |r: Review| r.card == card;
    let of_day = |r: Review| r.day == day;
    let of_key = |r: Review| r.key() == (day, card);
    lemma_filter_twice(s, of_card, of_day, of_key);
    lemma_filter_twice(s, of_card, of_key, of_key);
    lemma_with_key_is_filter(s, (day, card), of_key);
    lemma_with_key_is_filter(chronology(s, card), (day, card), of_key);
}

/// What is recorded depends on the order of each card's own reviews only: two
/// sessions that agree on these end with the same record, in whatever order they
/// served the cards.
pub proof fn card_chronologies_decide_the_record(
    a: Seq<Review>,
    b: Seq<Review>,
    record_a: Seq<Review>,
    record_b: Seq<Review>,
)
    requires
        stable_sort_of(a, record_a),
        stable_sort_of(b, record_b),
        forall|card: int| #[trigger] chronology(a, card) == chronology(b, card),
    ensures
        record_a == record_b,
{
    assert forall|k: (int, int)| #[trigger] with_key(record_a, k) == with_key(record_b, k) by {
        assert(with_key(record_a, k) == with_key(a, k));
        assert(with_key(record_b, k) == with_key(b, k));
        lemma_key_in_chronology(a, k.0, k.1);
        lemma_key_in_chronology(b, k.0, k.1);
        assert(chronology(a, k.1) == chronology(b, k.1));
        assert(k == (k.0, k.1));
    }
    stable_order_is_unique(record_a, record_b);
}

/// What is left of an ordered sequence is ordered.
proof fn lemma_filter_keeps_order(s: Seq<Review>, p: spec_fn(Review) -> bool)
    requires
        ordered(s),
    ensures
        ordered(s.filter(p)),
        forall|i: int| 0 <= i < s.filter(p).len() ==> s.contains(#[trigger] s.filter(p)[i]),
    decreases s.len(),
{
    reveal(Seq::filter);
    if s.len() > 0 {
        let front = s.drop_last();
        let last = s.last();
        assert forall|i: int, j: int|
            #![trigger front[i], front[j]]
            0 <= i < j < front.len() implies !key_less(front[j].key(), front[i].key()) by {
            assert(front[i] == s[i] && front[j] == s[j]);
        }
        lemma_filter_keeps_order(front, p);
        let kept = front.filter(p);
        let all = s.filter(p);
        assert forall|i: int| 0 <= i < all.len() implies s.contains(#[trigger] all[i]) by {
            if i < kept.len() {
                assert(front.contains(kept[i]));
                let k = choose|k: int| 0 <= k < front.len() && front[k] == kept[i];
                assert(s[k] == kept[i]);
            } else {
                assert(s[s.len() - 1] == last);
            }
        }
        assert forall|i: int, j: int|
            #![trigger all[i], all[j]]
            0 <= i < j < all.len() implies !key_less(all[j].key(), all[i].key()) by {
            if j == kept.len() {
                assert(front.contains(kept[i]));
                let k = choose|k: int| 0 <= k < front.len() && front[k] == kept[i];
                assert(s[k] == all[i] && s[s.len() - 1] == all[j]);
            } else {
                assert(all[i] == kept[i] && all[j] == kept[j]);
            }
        }
    }
}

/// Reviews of one card that stand in the order of their days are ordered.
proof fn lemma_chronology_is_ordered(s: Seq<Review>, card: int)
    requires
        day_ordered(s),
    ensures
        ordered(chronology(s, card)),
        forall|i: int|
            0 <= i < chronology(s, card).len() ==> s.contains(#[trigger] chronology(s, card)[i]),
    decreases s.len(),
{
    reveal(Seq::filter);
    if s.len() > 0 {
        let front = s.drop_last();
        assert forall|i: int, j: int|
            #![trigger front[i], front[j]]
            0 <= i <= j < front.len() implies front[i].day <= front[j].day by {
            assert(front[i] == s[i] && front[j] == s[j]);
        }
        lemma_chronology_is_ordered(front, card);
        let kept = chronology(front, card);
        let all = chronology(s, card);
        assert forall|i: int| 0 <= i < all.len() implies s.contains(#[trigger] all[i]) by {
            if i < kept.len() {
                assert(front.contains(kept[i]));
                let k = choose|k: int| 0 <= k < front.len() && front[k] == kept[i];
                assert(s[k] == kept[i]);
            } else {
                assert(s[s.len() - 1] == s.last());
            }
        }
        assert forall|i: int, j: int|
            #![trigger all[i], all[j]]
            0 <= i < j < all.len() implies !key_less(all[j].key(), all[i].key()) by {
            s.lemma_filter_pred(|r: Review| r.card == card, i);
            s.lemma_filter_pred(|r: Review| r.card == card, j);
            if j == kept.len() {
                assert(front.contains(kept[i]));
                let k = choose|k: int| 0 <= k < front.len() && front[k] == kept[i];
                assert(s[k] == all[i] && s[s.len() - 1] == all[j]);
            } else {
                assert(all[i] == kept[i] && all[j] == kept[j]);
            }
        }
    }
}

/// A card's own reviews keep their order in the record.
pub proof fn the_record_keeps_card_chronologies(a: Seq<Review>, record: Seq<Review>, card: int)
    requires
        day_ordered(a),
        stable_sort_of(a, record),
    ensures
        chronology(record, card) == chronology(a, card),
{
    let of_card = |r: Review| r.card == card;
    lemma_filter_keeps_order(record, of_card);
    lemma_chronology_is_ordered(a, card);
    let x = chronology(record, card);
    let y = chronology(a, card);
    assert forall|k: (int, int)| #[trigger] with_key(x, k) == with_key(y, k) by {
        assert(k == (k.0, k.1));
        if k.1 == card {
            lemma_key_in_chronology(record, k.0, card);
            lemma_key_in_chronology(a, k.0, card);
            assert(with_key(record, k) == with_key(a, k));
        } else {
            let none = |r: Review| false;
            let of_key = |r: Review| r.key() == k;
            lemma_with_key_is_filter(x, k, of_key);
            lemma_with_key_is_filter(y, k, of_key);
            lemma_filter_twice(record, of_card, of_key, none);
            lemma_filter_twice(a, of_card, of_key, none);
            lemma_filter_nothing(record);
            lemma_filter_nothing(a);
        }
    }
    stable_order_is_unique(x, y);
}

/// Where no card is tested before it was studied, that holds of one card's own
/// reviews.
proof fn lemma_studied_card_by_card(s: Seq<Review>, card: int)
    requires
        studied_before_tested(s),
    ensures
        studied_before_tested(chronology(s, card)),
        exposed(s, card) ==> exposed(chronology(s, card), card),
    decreases s.len(),
{
    reveal(Seq::filter);
    if s.len() > 0 {
        let front = s.drop_last();
        let last = s.last();
        assert(front.push(last) =~= s);
        lemma_studied_front(s);
        lemma_studied_card_by_card(front, card);
        lemma_exposed_after_push(front, last, card);
        if last.card == card {
            let own = chronology(front, card);
            assert(s.take(s.len() - 1) =~= front);
            assert(s[s.len() - 1] == last);
            lemma_studied_after_push(own, last);
            lemma_exposed_after_push(own, last, card);
        }
    }
}

/// It holds of the reviews before the last.
proof fn lemma_studied_front(s: Seq<Review>)
    requires
        studied_before_tested(s),
        s.len() > 0,
    ensures
        studied_before_tested(s.drop_last()),
{
    let front = s.drop_last();
    assert forall|i: int| 0 <= i < front.len() implies (#[trigger] front[i]).first_exposure
        || exposed(front.take(i), front[i].card as int) by {
        assert(front[i] == s[i]);
        assert(front.take(i) =~= s.take(i));
    }
}

/// Where it holds of each card's own reviews, it holds of all.
proof fn lemma_studied_if_card_by_card(s: Seq<Review>)
    requires
        forall|card: int| studied_before_tested(#[trigger] chronology(s, card)),
    ensures
        studied_before_tested(s),
    decreases s.len(),
{
    if s.len() > 0 {
        let front = s.drop_last();
        let last = s.last();
        let card = last.card as int;
        assert(front.push(last) =~= s);
        assert forall|c: int| studied_before_tested(#[trigger] chronology(front, c)) by {
            reveal(Seq::filter);
            assert(studied_before_tested(chronology(s, c)));
            if c == card {
                assert(chronology(s, c).drop_last() =~= chronology(front, c));
                lemma_studied_front(chronology(s, c));
            }
        }
        lemma_studied_if_card_by_card(front);
        let own = chronology(front, card);
        let all = chronology(s, card);
        assert(all == own.push(last)) by {
            reveal(Seq::filter);
        }
        assert(studied_before_tested(all));
        assert(all[own.len() as int] == last);
        assert(all.take(own.len() as int) =~= own);
        if exposed(own, card) {
            let i = choose|i: int|
                0 <= i < own.len() && (#[trigger] own[i]).card == card && own[i].first_exposure;
            lemma_chronology_is_contained(front, card, i);
            let k = choose|k: int| 0 <= k < front.len() && front[k] == own[i];
            assert(front[k].card == card && front[k].first_exposure);
        }
        lemma_studied_after_push(front, last);
    }
}

proof fn lemma_chronology_is_contained(s: Seq<Review>, card: int, i: int)
    requires
        0 <= i < chronology(s, card).len(),
    ensures
        s.contains(chronology(s, card)[i]),
    decreases s.len(),
{
    reveal(Seq::filter);
    if s.len() > 0 {
        let front = s.drop_last();
        let kept = chronology(front, card);
        if i < kept.len() {
            lemma_chronology_is_contained(front, card, i);
            let k = choose|k: int| 0 <= k < front.len() && front[k] == kept[i];
            assert(s[k] == kept[i]);
        } else {
            assert(s[s.len() - 1] == s.last());
        }
    }
}

/// In the record as in the session, no card is tested before it was studied.
pub proof fn sorting_keeps_study_before_tests(a: Seq<Review>, record: Seq<Review>)
    requires
        day_ordered(a),
        stable_sort_of(a, record),
        studied_before_tested(a),
    ensures
        studied_before_tested(record),
{
    assert forall|card: int| studied_before_tested(#[trigger] chronology(record, card)) by {
        the_record_keeps_card_chronologies(a, record, card);
        lemma_studied_card_by_card(a, card);
    }
    lemma_studied_if_card_by_card(record);
}

proof fn lemma_filter_nothing(s: Seq<Review>)
    ensures
        s.filter(|r: Review| false) == Seq::<Review>::empty(),
    decreases s.len(),
{
    reveal(Seq::filter);
    if s.len() > 0 {
        lemma_filter_nothing(s.drop_last());
    } else {
        assert(s =~= Seq::<Review>::empty());
    }
}

/// Sessions of one learner and seed that gave a card the same reviews draw the
/// same next outcome for it, whatever they did with the other cards.
pub proof fn same_chronology_same_draw(v: SessionView, w: SessionView, card: int)
    requires
        v.seed == w.seed,
        v.learner == w.learner,
        chronology(v.reviews, card) == chronology(w.reviews, card),
    ensures
        outcome_seed(v, card) == outcome_seed(w, card),
{
}

/// What is recorded does not depend on the wall clock: two due dates within the
/// day leave the same review.
pub proof fn the_clock_leaves_no_trace(turn: Turn, passed: bool, a: Card, b: Card)
    requires
        a.due >= INTRADAY_DUE,
        b.due >= INTRADAY_DUE,
        a.interval == b.interval,
        a.stability_bits == b.stability_bits,
    ensures
        review_of(turn, passed, a) == review_of(turn, passed, b),
{
}

/// Which probe is shown does not matter to a session, only that one is.
pub proof fn which_probe_does_not_matter(v: SessionView, a: Served, b: Served)
    requires
        a.card_id == b.card_id,
        a.kind == b.kind,
        a.sched_r_micro == b.sched_r_micro,
        a.probe is Some == b.probe is Some,
    ensures
        turn_of(v, a) == turn_of(v, b),
{
}

/// A first exposure is passed. A recall is passed exactly when the draw is less than
/// the chance of the question that was shown, the probe's or the card's; the other
/// chance, the day, the card, the forecast and whether it is a re-study play no
/// part.
pub proof fn the_shown_question_decides(t: Turn, o: Outcome)
    ensures
        t.first_exposure ==> graded(t, Some(o)) && graded(t, None),
        !t.first_exposure && t.probe_shown ==> (graded(t, Some(o)) <==> o.draw.less(
            o.probe_chance,
        )),
        !t.first_exposure && !t.probe_shown ==> (graded(t, Some(o)) <==> o.draw.less(
            o.card_chance,
        )),
{
}

/// Turns that show the same kind of question are graded alike where the draw and the
/// chance of that question are the same, whatever the other chance is.
pub proof fn the_other_question_plays_no_part(t: Turn, u: Turn, a: Outcome, b: Outcome)
    requires
        t.first_exposure == u.first_exposure,
        t.probe_shown == u.probe_shown,
        a.draw == b.draw,
        t.probe_shown ==> a.probe_chance == b.probe_chance,
        !t.probe_shown ==> a.card_chance == b.card_chance,
    ensures
        graded(t, Some(a)) == graded(u, Some(b)),
{
}

/// A larger chance of the shown question, or a smaller draw, never turns a pass into
/// a fail.
pub proof fn better_chances_never_fail(t: Turn, a: Outcome, b: Outcome)
    requires
        graded(t, Some(a)),
        b.draw.at_most(a.draw),
        t.probe_shown ==> a.probe_chance.at_most(b.probe_chance),
        !t.probe_shown ==> a.card_chance.at_most(b.card_chance),
    ensures
        graded(t, Some(b)),
{
}

/// A draw of zero passes against every positive chance, and no draw passes against a
/// chance that it reaches.
pub proof fn draws_below_the_chance_pass(t: Turn, o: Outcome)
    requires
        !t.first_exposure,
    ensures
        ({
            let chance = if t.probe_shown {
                o.probe_chance
            } else {
                o.card_chance
            };
            &&& o.draw.bits == 0 && 0 < chance.bits <= 0x7ff0_0000_0000_0000 ==> graded(t, Some(o))
            &&& chance.at_most(o.draw) ==> !graded(t, Some(o))
        }),
{
}

/// What a served card becomes: a turn of the current day, on the card of that id,
/// that is a first exposure where the card is new, a re-study where it is in
/// learning, and shows a probe where one stands in for a card that is not new. The
/// forecast is handed on.
pub proof fn a_turn_is_what_was_served(v: SessionView, s: Served)
    requires
        v.started > 0,
        serviceable(v, s),
        v.cards <= usize::MAX,
    ensures
        ({
            let t = turn_of(v, s);
            &&& t.day + 1 == v.started
            &&& 100_000 + t.card == s.card_id
            &&& t.first_exposure <==> s.kind == QueueKind::New
            &&& t.relearn <==> s.kind == QueueKind::Learning
            &&& !t.first_exposure && !t.relearn <==> s.kind == QueueKind::Review
            &&& t.probe_shown <==> s.probe is Some && !t.first_exposure
            &&& t.sched_r_micro == s.sched_r_micro
        }),
{
}

/// Days pass for a card from its last review on: the turn's day is that of the
/// review plus the days that have passed. A first exposure starts at none.
pub proof fn a_turn_counts_days_since_the_last_review(v: SessionView, s: Served, r: Review)
    requires
        v.started > 0,
        chronology(v.reviews, card_index(s.card_id)).len() > 0,
        r == chronology(v.reviews, card_index(s.card_id)).last(),
        r.day < v.started,
    ensures
        s.kind != QueueKind::New ==> r.day + turn_of(v, s).elapsed == turn_of(v, s).day,
        s.kind == QueueKind::New ==> turn_of(v, s).elapsed == 0,
{
}

/// Any new card of the corpus can be served, and any other card of it exactly where
/// it was studied before; no card from outside the corpus can.
pub proof fn studied_and_new_cards_can_be_served(v: SessionView, s: Served)
    ensures
        serviceable(v, s) <==> 100_000 <= s.card_id && s.card_id < 100_000 + v.cards && (s.kind
            == QueueKind::New || exists|i: int|
            0 <= i < v.reviews.len() && 100_000 + (#[trigger] v.reviews[i]).card == s.card_id
                && v.reviews[i].first_exposure),
{
    let c = card_index(s.card_id);
    if exposed(v.reviews, c) {
        let i = choose|i: int|
            0 <= i < v.reviews.len() && (#[trigger] v.reviews[i]).card == c
                && v.reviews[i].first_exposure;
        assert(100_000 + v.reviews[i].card == s.card_id);
    }
    if exists|i: int|
        0 <= i < v.reviews.len() && 100_000 + (#[trigger] v.reviews[i]).card == s.card_id
            && v.reviews[i].first_exposure {
        let i = choose|i: int|
            0 <= i < v.reviews.len() && 100_000 + (#[trigger] v.reviews[i]).card == s.card_id
                && v.reviews[i].first_exposure;
        assert(v.reviews[i].card == c);
    }
}

/// A record holds the turn as it was, the grade, and of the card what the scheduler
/// made of it; a due date from a million on is recorded as minus one, any other as
/// it is, and a card without a memory has no stability.
pub proof fn a_review_is_the_turn_and_what_came_of_it(t: Turn, passed: bool, after: Card)
    ensures
        ({
            let r = review_of(t, passed, after);
            &&& r.day == t.day && r.card == t.card && r.sched_r_micro == t.sched_r_micro
            &&& r.first_exposure == t.first_exposure && r.relearn == t.relearn
            &&& r.probe_shown == t.probe_shown && r.passed == passed
            &&& r.interval_after == after.interval
            &&& after.due < 1_000_000 ==> r.due_after == after.due
            &&& after.due >= 1_000_000 ==> r.due_after == -1
            &&& after.stability_bits is Some ==> r.stability_after_bits == after.stability_bits->0
            &&& after.stability_bits is None ==> r.stability_after_bits == 0
        }),
{
}

/// Recording adds one review at the end and changes no other; nothing else of the
/// session changes but that no turn is pending.
pub proof fn recording_adds_one_review(v: SessionView, t: Turn, passed: bool, after: Card)
    ensures
        ({
            let w = recorded(v, t, passed, after);
            &&& w.reviews.len() == v.reviews.len() + 1
            &&& w.reviews.take(v.reviews.len() as int) == v.reviews
            &&& w.reviews.last() == review_of(t, passed, after)
            &&& w.pending is None
            &&& w.seed == v.seed && w.learner == v.learner && w.days == v.days
            &&& w.cards == v.cards && w.started == v.started && w.served == v.served
        }),
{
    assert(recorded(v, t, passed, after).reviews.take(v.reviews.len() as int) =~= v.reviews);
}

/// Taking up a card counts it and records nothing; a day that has had ten thousand
/// takes up no more.
pub proof fn taking_up_counts_the_card(v: SessionView, s: Served)
    ensures
        ({
            let w = taken_up(v, s);
            &&& w.reviews == v.reviews
            &&& w.seed == v.seed && w.learner == v.learner && w.days == v.days
            &&& w.cards == v.cards && w.started == v.started
            &&& v.served < 10_000 ==> w.served == v.served + 1 && w.pending == Some(turn_of(v, s))
            &&& v.served >= 10_000 ==> w == v
        }),
{
}

/// Starting a day opens the next one with nothing served yet, as long as days are
/// left, and changes nothing else.
pub proof fn starting_a_day_opens_the_next(v: SessionView)
    ensures
        ({
            let w = day_started(v);
            &&& w.reviews == v.reviews
            &&& w.seed == v.seed && w.learner == v.learner && w.days == v.days
            &&& w.cards == v.cards
            &&& v.started < v.days ==> w.started == v.started + 1 && w.served == 0 && w.pending
                is None
            &&& v.started >= v.days ==> w == v
        }),
{
}

/// The scheduler is told of the card that was served and of the probe that stood in
/// for it, as good where it was passed and as failed where not, from the queue and
/// with fixed times.
pub proof fn an_answer_tells_the_grade(s: Served, passed: bool)
    ensures
        answer_of(s, passed).card_id == s.card_id,
        answer_of(s, passed).variant_id == s.probe,
        answer_of(s, passed).rating == Rating::Good <==> passed,
        answer_of(s, passed).rating == Rating::Again <==> !passed,
        answer_of(s, passed).milliseconds_taken == 3000,
        answer_of(s, passed).milliseconds_to_reveal == 1500,
        answer_of(s, passed).from_queue,
{
}

/// Reviews of one learner and card, one after the other, are decided by different
/// draws; so are those of two cards, and of two learners.
pub proof fn every_event_has_its_own_draw(v: SessionView, w: SessionView, card: usize, other: usize)
    requires
        v.seed == w.seed,
        chronology(v.reviews, card as int).len() <= u64::MAX,
        chronology(w.reviews, other as int).len() <= u64::MAX,
        ({
            let (a, b) = (
                chronology(v.reviews, card as int).len(),
                chronology(w.reviews, other as int).len(),
            );
            ||| v.learner == w.learner && card == other && a != b
            ||| v.learner == w.learner && card != other && a == b
            ||| v.learner != w.learner && card == other && a == b
        }),
    ensures
        outcome_seed(v, card as int) != outcome_seed(w, other as int),
{
    let a = seq![
        v.learner as u64,
        card as u64,
        chronology(v.reviews, card as int).len() as u64,
    ];
    let b = seq![
        w.learner as u64,
        other as u64,
        chronology(w.reviews, other as int).len() as u64,
    ];
    let k: int = if v.learner != w.learner {
        0
    } else if card != other {
        1
    } else {
        2
    };
    assert(a[k] != b[k]);
    assert forall|i: int| 0 <= i < a.len() && i != k implies #[trigger] a[i] == b[i] by {}
    streams_are_seeded_apart(v.seed, w.seed, "outcome"@, a, b);
}

/// Each learner's memory of each card is drawn from a stream of its own.
pub proof fn every_memory_has_its_own_stream(
    seed: u64,
    learner: usize,
    card: usize,
    other_learner: usize,
    other_card: usize,
)
    requires
        (learner != other_learner) != (card != other_card),
    ensures
        memory_seed(seed, learner, card) != memory_seed(seed, other_learner, other_card),
{
    let a = seq![learner as u64, card as u64];
    let b = seq![other_learner as u64, other_card as u64];
    let k: int = if learner != other_learner {
        0
    } else {
        1
    };
    assert(a[k] != b[k]);
    assert forall|i: int| 0 <= i < a.len() && i != k implies #[trigger] a[i] == b[i] by {}
    streams_are_seeded_apart(seed, seed, "learner"@, a, b);
}

/// A pair is learned by rote up to the fraction: with a smaller draw too, and with
/// none that reaches it.
pub proof fn draws_below_the_fraction_make_rote(cfg: AblationConfig, draw: Double, other: Double)
    ensures
        is_rote(cfg, draw) && other.at_most(draw) ==> is_rote(cfg, other),
        cfg.rote_fraction.at_most(draw) ==> !is_rote(cfg, draw),
        draw.bits == 0 && 0 < cfg.rote_fraction.bits <= 0x7ff0_0000_0000_0000 ==> is_rote(cfg, draw),
        draw.less(cfg.rote_fraction) ==> is_rote(cfg, draw),
{
}

/// A record stands in the order of its days, and within a day in that of its cards.
pub proof fn records_go_by_day_and_card(reviews: Seq<Review>, record: Seq<Review>, i: int, j: int)
    requires
        stable_sort_of(reviews, record),
        0 <= i < j < record.len(),
    ensures
        record.to_multiset() == reviews.to_multiset(),
        record[i].day < record[j].day || (record[i].day == record[j].day && record[i].card
            <= record[j].card),
{
}

/// A session starts its days in their order, one for each that the settings ask for,
/// and the collection is moved on before every one but the first.
pub proof fn days_start_in_order(v: SessionView)
    ensures
        start_of(v) is Some <==> v.started < v.days,
        start_of(v) matches Some(d) ==> {
            &&& d.day == v.started
            &&& d.day + 1 == day_started(v).started
            &&& d.advance <==> d.day != 0
        },
{
}

/// A review more is the latest of its card, whatever kind it is, and none of any
/// other card; it counts for its day and for no other.
pub proof fn a_review_belongs_to_its_card_and_day(reviews: Seq<Review>, r: Review, card: int, day: int)
    ensures
        chronology(Seq::<Review>::empty(), card).len() == 0,
        chronology(reviews.push(r), card) == if r.card == card {
            chronology(reviews, card).push(r)
        } else {
            chronology(reviews, card)
        },
        day_count(Seq::<Review>::empty(), day) == 0,
        day_count(reviews.push(r), day) == day_count(reviews, day) + if r.day == day {
            1nat
        } else {
            0nat
        },
{
    reveal(Seq::filter);
    assert(reviews.push(r).drop_last() =~= reviews);
}

} // verus!
