//! The phases of the learning rate.
use vstd::prelude::*;

verus! {

pub const DEFAULT_WARMUP_STEPS: usize = 40;

/// What the learning rate is multiplied by at a step.
#[derive(Debug, Clone, Copy, PartialEq, Eq, Structural)]
pub enum LrPhase {
    /// The fraction `done / of`.
    Warmup { done: usize, of: usize },
    /// One.
    Stable,
    /// The fraction `left / of` of the way from the final fraction to one.
    Warmdown { left: usize, of: usize },
}

/// The phase of a step: a rise over the first `warmup_steps`, then level, then
/// a fall over the last `warmdown_iters`.
pub open spec fn phase_at(
    step: int,
    num_iters: int,
    warmup_steps: int,
    warmdown_iters: int,
) -> LrPhase {
    if step < warmup_steps {
        LrPhase::Warmup { done: (step + 1) as usize, of: warmup_steps as usize }
    } else if step <= num_iters - warmdown_iters {
        LrPhase::Stable
    } else {
        LrPhase::Warmdown { left: (num_iters - step) as usize, of: warmdown_iters as usize }
    }
}

/// The phase of a step.
pub fn lr_phase(
    step: usize,
    num_iters: usize,
    warmup_steps: usize,
    warmdown_iters: usize,
) -> (p: LrPhase)
    requires
        step >= warmup_steps ==> step <= num_iters && warmdown_iters <= num_iters,
    ensures
        p == phase_at(
            step as int,
            num_iters as int,
            warmup_steps as int,
            warmdown_iters as int,
        ),
{
    if step < warmup_steps {
        LrPhase::Warmup { done: step + 1, of: warmup_steps }
    } else if step <= num_iters - warmdown_iters {
        LrPhase::Stable
    } else {
        LrPhase::Warmdown { left: num_iters - step, of: warmdown_iters }
    }
}

/// Every fraction lies between 0 and 1: a rise has begun and is at most
/// complete, and a fall has begun.
pub proof fn fractions_are_proper(
    step: int,
    num_iters: int,
    warmup_steps: int,
    warmdown_iters: int,
)
    requires
        0 <= step,
        0 <= warmup_steps <= usize::MAX,
        0 <= warmdown_iters <= usize::MAX,
        step >= warmup_steps ==> step <= num_iters <= usize::MAX && warmdown_iters <= num_iters,
    ensures
        match phase_at(step, num_iters, warmup_steps, warmdown_iters) {
            LrPhase::Warmup { done, of } => 0 < done <= of,
            LrPhase::Stable => true,
            LrPhase::Warmdown { left, of } => 0 <= left < of,
        },
{
}

/// The rise reaches one at its last step, and the fall ends at the final
/// fraction.
pub proof fn phases_meet(num_iters: int, warmup_steps: int, warmdown_iters: int)
    requires
        0 < warmup_steps <= num_iters <= usize::MAX,
        0 < warmdown_iters <= num_iters,
        warmup_steps <= num_iters - warmdown_iters,
    ensures
        phase_at(warmup_steps - 1, num_iters, warmup_steps, warmdown_iters) == (LrPhase::Warmup {
            done: warmup_steps as usize,
            of: warmup_steps as usize,
        }),
        phase_at(num_iters - warmdown_iters, num_iters, warmup_steps, warmdown_iters)
            == LrPhase::Stable,
        phase_at(num_iters, num_iters, warmup_steps, warmdown_iters) == (LrPhase::Warmdown {
            left: 0,
            of: warmdown_iters as usize,
        }),
{
}

/// The rise and the fall are linear: from a step to the next, a rise has one part
/// more done and a fall one part less left, of as many parts as before; a rise
/// begins with one part and ends with all, and a fall ends with none. In between,
/// and at the last step before the fall, the rate is level.
pub proof fn phases_are_linear(
    step: int,
    num_iters: int,
    warmup_steps: int,
    warmdown_iters: int,
)
    requires
        0 <= step < num_iters < usize::MAX,
        0 <= warmup_steps <= usize::MAX,
        0 <= warmdown_iters <= num_iters,
    ensures
        ({
            let now = phase_at(step, num_iters, warmup_steps, warmdown_iters);
            let next = phase_at(step + 1, num_iters, warmup_steps, warmdown_iters);
            &&& step + 1 < warmup_steps ==> {
                &&& now matches LrPhase::Warmup { done: a, of: m }
                &&& next matches LrPhase::Warmup { done: b, of: n }
                &&& b == a + 1
                &&& m == warmup_steps
                &&& n == warmup_steps
            }
            &&& step == 0 && warmup_steps > 0 ==> now == (LrPhase::Warmup {
                done: 1,
                of: warmup_steps as usize,
            })
            &&& step + 1 == warmup_steps ==> now == (LrPhase::Warmup {
                done: warmup_steps as usize,
                of: warmup_steps as usize,
            })
            &&& warmup_steps <= step <= num_iters - warmdown_iters ==> now == LrPhase::Stable
            &&& step >= warmup_steps && step > num_iters - warmdown_iters ==> {
                &&& now matches LrPhase::Warmdown { left: a, of: m }
                &&& next matches LrPhase::Warmdown { left: b, of: n }
                &&& a == b + 1
                &&& m == warmdown_iters
                &&& n == warmdown_iters
            }
            &&& step + 1 == num_iters && step + 1 >= warmup_steps && warmdown_iters > 0 ==> next == (
            LrPhase::Warmdown { left: 0, of: warmdown_iters as usize })
        }),
{
}

} // verus!
