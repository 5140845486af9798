//! The course of a whole arm, for any scheduler and any learner.
//!
//! A session is driven from outside: a scheduler serves cards and takes answers, a
//! learner recalls them. Here both are arbitrary functions, and what follows from
//! the rules of a session is stated for all of them.

use vstd::prelude::*;

use crate::collection::Card;
use crate::config::setup_of;
use crate::config::AblationConfig;
use crate::config::Arm;
use crate::config::ArmSetup;
use crate::order::sorted_by_key;
use crate::session::answer_of;
use crate::session::at_start;
use crate::session::chronology;
use crate::session::day_started;
use crate::session::graded;
use crate::session::memory_seed;
use crate::session::outcome_seed;
use crate::session::recorded;
use crate::session::serviceable;
use crate::session::taken_up;
use crate::session::turn_of;
use crate::session::Answer;
use crate::session::Outcome;
use crate::session::Review;
use crate::session::Served;
use crate::session::SessionView;
use crate::session::Turn;
use crate::session::DAY_LIMIT;

verus! {

/// A scheduler and a learner.
pub struct World {
    /// The card that a collection of this setup serves next, if the day has one.
    pub next: spec_fn(ArmSetup, SessionView) -> Option<Served>,
    /// The card as the collection keeps it after an answer.
    pub after: spec_fn(ArmSetup, SessionView, Answer) -> Card,
    /// What decides a recall: given what seeds the learner's memory of the card and
    /// the draw, the card's reviews so far and the turn.
    pub recall: spec_fn(u64, u64, Seq<Review>, Turn) -> Outcome,
}

/// The turn is passed.
pub open spec fn passes(w: World, v: SessionView, t: Turn) -> bool {
    graded(
        t,
        Some(
            (w.recall)(
                memory_seed(v.seed, v.learner, t.card),
                outcome_seed(v, t.card as int),
                chronology(v.reviews, t.card as int),
                t,
            ),
        ),
    )
}

/// The session after one step: a card is served, answered and recorded, or, where
/// none is left, the next day starts. A runaway day, and a card that cannot be
/// served, end the course.
pub open spec fn stepped(w: World, setup: ArmSetup, v: SessionView) -> SessionView {
    if v.started == 0 {
        day_started(v)
    } else {
        match (w.next)(setup, v) {
            None => day_started(v),
            Some(s) => if v.served < DAY_LIMIT && serviceable(v, s) {
                let t = turn_of(v, s);
                let u = taken_up(v, s);
                let passed = passes(w, v, t);
                recorded(u, t, passed, (w.after)(setup, u, answer_of(s, passed)))
            } else {
                v
            },
        }
    }
}

/// The session after so many steps.
pub open spec fn course(w: World, setup: ArmSetup, start: SessionView, steps: nat) -> SessionView
    decreases steps,
{
    if steps == 0 {
        start
    } else {
        stepped(w, setup, course(w, setup, start, (steps - 1) as nat))
    }
}

/// Probes that are attached and never served change nothing: where the scheduler,
/// at a serving rate of zero, treats a collection with probes as one without, the
/// off arm goes through the same states as the stock arm and ends with the same
/// record.
pub proof fn off_goes_as_stock(
    w: World,
    cfg: AblationConfig,
    learner: usize,
    cards: nat,
    steps: nat,
)
    requires
        forall|v: SessionView| #[trigger]
            (w.next)(setup_of(cfg, Arm::Off), v) == (w.next)(setup_of(cfg, Arm::Stock), v),
        forall|v: SessionView, a: Answer| #[trigger]
            (w.after)(setup_of(cfg, Arm::Off), v, a) == (w.after)(setup_of(cfg, Arm::Stock), v, a),
    ensures
        course(w, setup_of(cfg, Arm::Off), at_start(cfg, learner, cards), steps) == course(
            w,
            setup_of(cfg, Arm::Stock),
            at_start(cfg, learner, cards),
            steps,
        ),
        sorted_by_key(
            course(w, setup_of(cfg, Arm::Off), at_start(cfg, learner, cards), steps).reviews,
        ) == sorted_by_key(
            course(w, setup_of(cfg, Arm::Stock), at_start(cfg, learner, cards), steps).reviews,
        ),
    decreases steps,
{
    if steps > 0 {
        off_goes_as_stock(w, cfg, learner, cards, (steps - 1) as nat);
    }
}

} // verus!
