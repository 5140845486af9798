//! A three-arm ablation experiment on probe questions, run on simulated
//! learners: the rules, the bookkeeping and the measurements.
//!
//! A spaced-repetition collection may attach *probes* to its cards: reworded
//! questions about the same fact. The experiment asks whether a probe tells
//! more about a learner than the card does. Three arms study the same corpus:
//!
//! - **stock**: the collection has no probes;
//! - **off**: probes are attached and their serving rate is zero;
//! - **on**: probes are attached and served at the configured rate.
//!
//! Everything random derives from one seed, so the same seed gives the same
//! corpus, the same learners and the same outcomes.

pub mod calibration;
pub mod collection;
pub mod config;
pub mod corpus;
pub mod counting;
pub mod course;
pub mod findings;
pub mod leakage;
pub mod number;
pub mod order;
pub mod overlap;
pub mod provenance;
pub mod reordering;
pub mod report;
pub mod session;
pub mod stream;
pub mod tallies;
pub mod text;
