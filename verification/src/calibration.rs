//! Forecasts and outcomes, laid out for scoring.

use vstd::prelude::*;
use vstd::relations::sorted_by;
use vstd::relations::total_ordering;

use crate::counting::picked_items_have_places;
use crate::counting::places;
use crate::order::key_less;
use crate::order::sorted_by_key;
use crate::order::stable_sort;
use crate::order::stable_sort_of;
use crate::order::Keyed;

verus! {

/// A forecast of recall, in millionths, and what came of it.
#[derive(Debug, Clone, Copy, PartialEq, Eq, Structural)]
pub struct Row {
    pub forecast_micro: u32,
    pub passed: bool,
}

impl Keyed for Row {
    open spec fn key(self) -> (int, int) {
        (
            self.forecast_micro as int,
            if self.passed {
                1
            } else {
                0
            },
        )
    }

    fn precedes(&self, other: &Self) -> (b: bool) {
        self.forecast_micro < other.forecast_micro || (self.forecast_micro == other.forecast_micro
            && !self.passed && other.passed)
    }
}

/// What a score is computed from: the rows in the order of their forecasts, how
/// many there are and how many of them were passed.
#[derive(Debug)]
pub struct Calibration {
    pub n: usize,
    pub passes: usize,
    pub rows: Vec<Row>,
}

/// How many rows were passed.
pub open spec fn pass_count(rows: Seq<Row>) -> nat {
    rows.filter(|r: Row| r.passed).len()
}

/// Lays out rows for scoring; there is nothing to score without rows. The rows
/// are sorted, so a sum over them does not depend on the order in which the
/// reviews were served.
pub fn calibration(rows: &Vec<Row>) -> (c: Option<Calibration>)
    ensures
        c is None <==> rows@.len() == 0,
        c matches Some(c) ==> {
            &&& c.n == rows@.len()
            &&& c.passes == pass_count(rows@)
            &&& c.rows@ == sorted_by_key(rows@)
            &&& stable_sort_of(rows@, c.rows@)
        },
{
    if rows.len() == 0 {
        return None;
    }
    let mut passes: usize = 0;
    proof {
        reveal(Seq::filter);
    }
    for i in 0..rows.len()
        invariant
            passes <= i,
            passes == pass_count(rows@.take(i as int)),
    {
        proof {
            reveal(Seq::filter);
            assert(rows@.take(i + 1).drop_last() =~= rows@.take(i as int));
        }
        if rows[i].passed {
            passes = passes + 1;
        }
    }
    proof {
        assert(rows@.take(rows@.len() as int) =~= rows@);
    }
    Some(Calibration { n: rows.len(), passes, rows: stable_sort(rows) })
}

/// Rows that are the same but for their order are laid out the same.
pub proof fn the_layout_ignores_serving_order(
    a: Seq<Row>,
    b: Seq<Row>,
    sorted_a: Seq<Row>,
    sorted_b: Seq<Row>,
)
    requires
        a.to_multiset() == b.to_multiset(),
        stable_sort_of(a, sorted_a),
        stable_sort_of(b, sorted_b),
    ensures
        sorted_a == sorted_b,
{
    let leq = |x: Row, y: Row| !key_less(y.key(), x.key());
    assert(total_ordering(leq));
    assert(sorted_by(sorted_a, leq));
    assert(sorted_by(sorted_b, leq));
    vstd::seq_lib::lemma_sorted_unique(sorted_a, sorted_b, leq);
}

/// Rows are laid out by their forecasts from the lowest on, and of equal forecasts
/// the failed ones come first.
pub proof fn rows_go_by_forecast(rows: Seq<Row>, sorted: Seq<Row>, i: int, j: int)
    requires
        stable_sort_of(rows, sorted),
        0 <= i < j < sorted.len(),
    ensures
        sorted.to_multiset() == rows.to_multiset(),
        sorted[i].forecast_micro < sorted[j].forecast_micro || (sorted[i].forecast_micro
            == sorted[j].forecast_micro && (sorted[i].passed ==> sorted[j].passed)),
{
}

/// The passes are the rows that were passed, each counted once.
pub proof fn passes_are_counted(rows: Seq<Row>)
    ensures
        pass_count(rows) == places(rows, |r: Row| r.passed).len(),
        pass_count(rows) <= rows.len(),
{
    picked_items_have_places(rows, |r: Row| r.passed);
    rows.lemma_filter_len(|r: Row| r.passed);
}

} // verus!
