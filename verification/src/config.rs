//! What an experiment is set up with.

use vstd::prelude::*;

use crate::number::Double;
use crate::number::Single;

verus! {

/// The claim is falsified if, on held-back cards:
/// (a) the gap `pass(original) - pass(probe)` at high retrievability is under
///     0.05 or its 95% interval includes zero: the probe adds no information; or
/// (b) retrievability predicts probe outcomes at least as well as it predicts
///     card outcomes: remembering the card already tells whether the learner
///     knows the thing.
/// The run is invalid, whatever the outcome, if the off and stock arms do not
/// give identical reviews.
pub const FALSIFICATION: &'static str =
    "gap<0.05 or gap CI includes 0, or Brier(R->probe) <= Brier(R->card), on held-back cards";

/// The id of the first card of the corpus; the others follow it.
pub const FIRST_CARD_ID: i64 = 100_000;

/// The settings of an experiment.
#[derive(Debug, Clone, Copy, PartialEq, Eq, Structural)]
pub struct AblationConfig {
    pub seed: u64,
    pub learners: usize,
    pub days: u32,
    /// Cards in the emitted corpus; a run uses whatever the collection holds.
    pub cards: usize,
    pub probe_rate: Single,
    pub probe_threshold: Single,
    /// Fraction of (learner, card) pairs learned by rote: high surface recall,
    /// low transfer to a reworded probe.
    pub rote_fraction: Double,
    /// Every n-th card is held back: its outcomes are used only for the
    /// reported metrics, never for tuning.
    pub heldback_every: usize,
}

impl Default for AblationConfig {
    /// Seed 42, 8 learners, 200 cards, 150 days, probes at rate 0.5 from
    /// retrievability 0.85 on, 0.4 of the pairs learned by rote, every fifth
    /// card held back.
    fn default() -> (cfg: Self)
        ensures
            cfg == (AblationConfig {
                seed: 42,
                learners: 8,
                days: 150,
                cards: 200,
                probe_rate: Single { bits: 0x3f00_0000 },
                probe_threshold: Single { bits: 0x3f59_999a },
                rote_fraction: Double { bits: 0x3fd9_9999_9999_999a },
                heldback_every: 5,
            }),
    {
        AblationConfig {
            seed: 42,
            learners: 8,
            days: 150,
            cards: 200,
            probe_rate: Single { bits: 0x3f00_0000 },
            probe_threshold: Single { bits: 0x3f59_999a },
            rote_fraction: Double { bits: 0x3fd9_9999_9999_999a },
            heldback_every: 5,
        }
    }
}

/// The three arms.
#[derive(Debug, Clone, Copy, PartialEq, Eq, Structural)]
pub enum Arm {
    Stock,
    Off,
    On,
}

impl Arm {
    pub open spec fn label(self) -> Seq<char> {
        match self {
            Arm::Stock => "stock"@,
            Arm::Off => "off"@,
            Arm::On => "on"@,
        }
    }

    /// The arm's name in reports and file names.
    pub fn name(self) -> (text: &'static str)
        ensures
            text@ == self.label(),
    {
        match self {
            Arm::Stock => "stock",
            Arm::Off => "off",
            Arm::On => "on",
        }
    }
}

/// Different arms have different names.
pub proof fn arm_names_differ(a: Arm, b: Arm)
    requires
        a != b,
    ensures
        a.label() != b.label(),
{
    reveal_strlit("stock");
    reveal_strlit("off");
    reveal_strlit("on");
    assert("stock"@.len() == 5);
    assert("off"@.len() == 3);
    assert("on"@.len() == 2);
}

/// How the collection of an arm is configured before it is studied.
#[derive(Debug, Clone, Copy, PartialEq, Eq, Structural)]
pub struct ArmSetup {
    /// The stored probes are deleted first.
    pub drop_probes: bool,
    pub fsrs: bool,
    /// Off everywhere: the balancer looks at what was answered before, which
    /// would make intervals depend on the order within a day.
    pub load_balancer: bool,
    /// Neither learning nor relearning has steps.
    pub steps: bool,
    pub new_per_day: u32,
    pub reviews_per_day: u32,
    pub probe_threshold: Single,
    pub probe_rate: Single,
}

/// The setup of `arm`.
pub open spec fn setup_of(cfg: AblationConfig, arm: Arm) -> ArmSetup {
    ArmSetup {
        drop_probes: arm == Arm::Stock,
        fsrs: true,
        load_balancer: false,
        steps: false,
        new_per_day: 20,
        reviews_per_day: 9999,
        probe_threshold: cfg.probe_threshold,
        probe_rate: if arm == Arm::On {
            cfg.probe_rate
        } else {
            Single { bits: 0 }
        },
    }
}

/// How to configure the collection of `arm`.
pub fn arm_setup(cfg: &AblationConfig, arm: Arm) -> (setup: ArmSetup)
    ensures
        setup == setup_of(*cfg, arm),
{
    let on: bool = matches!(arm, Arm::On);
    let stock: bool = matches!(arm, Arm::Stock);
    ArmSetup {
        drop_probes: stock,
        fsrs: true,
        load_balancer: false,
        steps: false,
        new_per_day: 20,
        reviews_per_day: 9999,
        probe_threshold: cfg.probe_threshold,
        probe_rate: if on { cfg.probe_rate } else { Single { bits: 0 } },
    }
}

/// The arms are configured alike but for the probe rate, which is zero unless
/// the arm is on, and for the probes, which only the stock arm deletes.
pub proof fn arms_differ_in_rate_and_probes_only(cfg: AblationConfig, a: Arm, b: Arm)
    ensures
        setup_of(cfg, a) == (ArmSetup {
            drop_probes: setup_of(cfg, a).drop_probes,
            probe_rate: setup_of(cfg, a).probe_rate,
            ..setup_of(cfg, b)
        }),
        a != Arm::On ==> setup_of(cfg, a).probe_rate.scaled() == 0,
        setup_of(cfg, a).drop_probes == (a == Arm::Stock),
        setup_of(cfg, Arm::Off) == (ArmSetup { drop_probes: false, ..setup_of(cfg, Arm::Stock) }),
{
    let zero = Single { bits: 0 };
    assert(zero.significand() * vstd::arithmetic::power2::pow2(zero.doublings()) == 0)
        by (nonlinear_arith)
        requires
            zero.significand() == 0,
    ;
}

/// The arms in the order in which they are run and reported.
pub open spec fn arm_order() -> Seq<Arm> {
    seq![Arm::Stock, Arm::Off, Arm::On]
}

/// The runs of an experiment: arm by arm, learner by learner.
pub open spec fn schedule_of(learners: nat) -> Seq<(Arm, usize)> {
    Seq::new(3 * learners, |i: int| (arm_order()[i / learners as int], (i % learners as int) as usize))
}

/// Which runs to make, in order.
pub fn schedule(learners: usize) -> (runs: Vec<(Arm, usize)>)
    ensures
        runs@ == schedule_of(learners as nat),
{
    let mut runs: Vec<(Arm, usize)> = Vec::new();
    let n: usize = learners;
    proof {
        assert(0 * n == 0) by (nonlinear_arith);
    }
    for a in 0..3usize
        invariant
            n == learners,
            runs@.len() == a * n,
            forall|i: int| 0 <= i < a * n ==> #[trigger] runs@[i] == schedule_of(n as nat)[i],
    {
        let arm: Arm = if a == 0 {
            Arm::Stock
        } else if a == 1 {
            Arm::Off
        } else {
            Arm::On
        };
        for l in 0..n
            invariant
                n == learners,
                a < 3,
                arm == arm_order()[a as int],
                runs@.len() == a * n + l,
                forall|i: int|
                    0 <= i < a * n + l ==> #[trigger] runs@[i] == schedule_of(n as nat)[i],
        {
            runs.push((arm, l));
            proof {
                let i = a * n + l;
                vstd::arithmetic::div_mod::lemma_fundamental_div_mod_converse(
                    i,
                    n as int,
                    a as int,
                    l as int,
                );
                assert(0 <= i < 3 * n) by (nonlinear_arith)
                    requires
                        i == a * n + l,
                        0 <= a < 3,
                        0 <= l < n,
                ;
                assert(a * n == n * a) by (nonlinear_arith);
            }
        }
        proof {
            assert((a + 1) * n == a * n + n) by (nonlinear_arith);
        }
    }
    proof {
        assert(runs@ =~= schedule_of(n as nat));
    }
    runs
}

/// Every arm is set up from the settings: it serves probes from the configured
/// threshold on, whatever the rate, at the configured rate where the arm is on and
/// at none elsewhere; the scheduler is always the same one, with no steps, without
/// the load balancer, and with the same limits.
pub proof fn arms_are_set_up_from_the_settings(cfg: AblationConfig, arm: Arm)
    ensures
        setup_of(cfg, arm).probe_threshold == cfg.probe_threshold,
        arm == Arm::On ==> setup_of(cfg, arm).probe_rate == cfg.probe_rate,
        arm != Arm::On ==> setup_of(cfg, arm).probe_rate.bits == 0,
        setup_of(cfg, arm).drop_probes <==> arm == Arm::Stock,
        setup_of(cfg, arm).fsrs,
        !setup_of(cfg, arm).load_balancer,
        !setup_of(cfg, arm).steps,
        setup_of(cfg, arm).new_per_day == 20,
        setup_of(cfg, arm).reviews_per_day == 9999,
{
}

/// The setup of an arm depends on the threshold and the rate alone, and no arm that
/// is not on depends on the rate.
pub proof fn setups_depend_on_threshold_and_rate(a: AblationConfig, b: AblationConfig, arm: Arm)
    requires
        a.probe_threshold == b.probe_threshold,
    ensures
        a.probe_rate == b.probe_rate || arm != Arm::On ==> setup_of(a, arm) == setup_of(b, arm),
        arm == Arm::On && a.probe_rate != b.probe_rate ==> setup_of(a, arm) != setup_of(b, arm),
{
}

/// Every learner goes through every arm once: first all of them through stock, then
/// off, then on.
pub proof fn every_learner_runs_every_arm_once(learners: nat, l: int)
    requires
        0 <= l < learners <= usize::MAX,
    ensures
        schedule_of(learners).len() == learners + learners + learners,
        schedule_of(learners)[l] == (Arm::Stock, l as usize),
        schedule_of(learners)[learners + l] == (Arm::Off, l as usize),
        schedule_of(learners)[learners + learners + l] == (Arm::On, l as usize),
{
    let n = learners as int;
    vstd::arithmetic::div_mod::lemma_fundamental_div_mod_converse(l, n, 0, l);
    vstd::arithmetic::div_mod::lemma_fundamental_div_mod_converse(n + l, n, 1, l);
    vstd::arithmetic::div_mod::lemma_fundamental_div_mod_converse(n + n + l, n, 2, l);
}

} // verus!
