//! The course of a run, step by step.
use vstd::prelude::*;

use super::optim::{group_members, group_of, Group};
use super::train_loop::{
    eval_part, fires, geometry_fault, hms, is_logged, log_part, micros, plan, plan_from,
    rescale_part, sample_ids, sample_part, Pace, TrainAction,
};
use crate::text::zero_padded;
use crate::tokenizer::bpe::BpeTokenizer;

verus! {

// ---------------------------------------------------------------------------
// Batches
// ---------------------------------------------------------------------------

/// Whether the total batch is a number of whole micro-batches of all ranks.
pub open spec fn divides_evenly(per_step: int, total_batch: int) -> bool {
    exists|k: int| k > 0 && total_batch == #[trigger] (k * per_step)
}

/// A batch geometry is accepted if and only if there are ranks, rows and tokens, and
/// the total batch is one or more whole micro-batches of all ranks together.
pub proof fn total_batches_are_whole_micro_batches(
    gpus: int,
    device_batch: int,
    sequence_len: int,
    total_batch: int,
)
    requires
        0 <= gpus,
        0 <= device_batch,
        0 <= sequence_len,
        0 <= total_batch,
    ensures
        geometry_fault(gpus, device_batch, sequence_len, total_batch) is None <==> {
            &&& gpus > 0
            &&& device_batch > 0
            &&& sequence_len > 0
            &&& divides_evenly(gpus * device_batch * sequence_len, total_batch)
        },
{
    if gpus > 0 && device_batch > 0 && sequence_len > 0 {
        let n = gpus * device_batch * sequence_len;
        assert(gpus * device_batch > 0) by (nonlinear_arith)
            requires
                gpus > 0,
                device_batch > 0,
        ;
        assert(n > 0) by (nonlinear_arith)
            requires
                n == gpus * device_batch * sequence_len,
                gpus * device_batch > 0,
                sequence_len > 0,
        ;
        vstd::arithmetic::div_mod::lemma_fundamental_div_mod(total_batch, n);
        vstd::arithmetic::div_mod::lemma_mod_bound(total_batch, n);
        let q = total_batch / n;
        if total_batch % n == 0 && q != 0 {
            assert(q > 0) by (nonlinear_arith)
                requires
                    total_batch == n * q,
                    total_batch >= 0,
                    n > 0,
                    q != 0,
            ;
            assert(total_batch == q * n) by (nonlinear_arith)
                requires
                    total_batch == n * q,
            ;
        }
        if divides_evenly(n, total_batch) {
            let k = choose|k: int| k > 0 && total_batch == #[trigger] (k * n);
            vstd::arithmetic::div_mod::lemma_fundamental_div_mod_converse(total_batch, n, k, 0);
        }
    }
}

// ---------------------------------------------------------------------------
// Cadences
// ---------------------------------------------------------------------------

/// Whether a step is the last, or a multiple of a cadence other than zero.
pub open spec fn is_due(step: int, num_iters: int, every: int) -> bool {
    every > 0 && (step == num_iters || exists|k: int| k > 0 && step == #[trigger] (k * every))
}

/// A hook fires at each multiple of its cadence and at the last step, never before
/// the first update, and without a cadence never.
pub proof fn hooks_fire_at_their_cadence(step: int, num_iters: int, every: int)
    requires
        0 <= step <= num_iters,
        0 <= every,
    ensures
        fires(step, num_iters, every) <==> is_due(step, num_iters, every),
        0 < num_iters ==> !fires(0, num_iters, every),
        every > 0 ==> fires(num_iters, num_iters, every),
        0 < every && step + every < num_iters && 0 < step ==> (fires(step, num_iters, every) <==> fires(
            step + every,
            num_iters,
            every,
        )),
{
    if every > 0 {
        vstd::arithmetic::div_mod::lemma_fundamental_div_mod(step, every);
        let q = step / every;
        if step > 0 && step % every == 0 {
            assert(q > 0) by (nonlinear_arith)
                requires
                    step == every * q,
                    step > 0,
                    every > 0,
            ;
            assert(step == q * every) by (nonlinear_arith)
                requires
                    step == every * q,
            ;
        }
        if exists|k: int| k > 0 && step == #[trigger] (k * every) {
            let k = choose|k: int| k > 0 && step == #[trigger] (k * every);
            vstd::arithmetic::div_mod::lemma_mod_multiples_basic(k, every);
            assert(step > 0) by (nonlinear_arith)
                requires
                    step == k * every,
                    k > 0,
                    every > 0,
            ;
        }
        vstd::arithmetic::div_mod::lemma_mod_add_multiples_vanish(step, every);
    }
}

/// A log covers the steps since the log before it: that one was written as many
/// steps earlier as the window says, and none in between. The first log covers no
/// steps.
pub proof fn logs_cover_the_steps_since_the_last(p: Pace, step: int, between: int)
    requires
        0 <= step <= usize::MAX,
        is_logged(step, p.log_every as int),
    ensures
        log_part(p, step).len() == 1,
        log_part(p, step)[0] matches TrainAction::Log { step: s, window } && s == step && {
            &&& step == 0 <==> window == 0
            &&& window <= step
            &&& step > 0 ==> is_logged(step - window, p.log_every as int)
            &&& step - window < between < step ==> !is_logged(between, p.log_every as int)
        },
        is_logged(0, p.log_every as int),
{
    let e = p.log_every as int;
    if e > 0 && step > 0 {
        vstd::arithmetic::div_mod::lemma_fundamental_div_mod(step, e);
        let q = step / e;
        assert(q >= 1) by (nonlinear_arith)
            requires
                step == e * q,
                step > 0,
                e > 0,
        ;
        assert(step - e == (q - 1) * e + 0) by (nonlinear_arith)
            requires
                step == e * q,
        ;
        assert((q - 1) * e >= 0) by (nonlinear_arith)
            requires
                q >= 1,
                e > 0,
        ;
        vstd::arithmetic::div_mod::lemma_fundamental_div_mod_converse(step - e, e, q - 1, 0);
        if step - e < between < step {
            vstd::arithmetic::div_mod::lemma_fundamental_div_mod_converse(
                between,
                e,
                q - 1,
                between - (step - e),
            );
        }
    }
}

// ---------------------------------------------------------------------------
// Steps
// ---------------------------------------------------------------------------

proof fn lemma_micros(p: Pace, step: int, micro: int)
    requires
        0 <= micro <= p.grad_accum,
    ensures
        micros(p, step, micro) == Seq::new(
            (p.grad_accum - micro) as nat,
            |i: int| TrainAction::Micro { step: step as usize, micro: (micro + i) as usize },
        ),
    decreases p.grad_accum - micro,
{
    let want = Seq::new(
        (p.grad_accum - micro) as nat,
        |i: int| TrainAction::Micro { step: step as usize, micro: (micro + i) as usize },
    );
    if micro < p.grad_accum {
        lemma_micros(p, step, micro + 1);
    }
    assert(micros(p, step, micro) =~= want);
}

/// One action, if there is to be one.
pub open spec fn only_if(due: bool, a: TrainAction) -> Seq<TrainAction> {
    if due {
        seq![a]
    } else {
        Seq::empty()
    }
}

proof fn lemma_regroup(
    a: Seq<TrainAction>,
    b: Seq<TrainAction>,
    m: Seq<TrainAction>,
    r: Seq<TrainAction>,
    u: Seq<TrainAction>,
    l: Seq<TrainAction>,
    t: Seq<TrainAction>,
)
    ensures
        a + (b + (m + ((r + (u + l)) + t))) == a + b + (m + r + u + l + t),
{
    assert((r + (u + l)) + t =~= r + u + l + t);
    assert(m + (r + u + l + t) =~= m + r + u + l + t);
    assert(a + (b + (m + r + u + l + t)) =~= a + b + (m + r + u + l + t));
}

proof fn lemma_hooks(p: Pace, step: int)
    requires
        0 <= step <= p.num_iters,
    ensures
        eval_part(p, step) == only_if(
            is_due(step, p.num_iters as int, p.eval_every as int),
            TrainAction::Eval { step: step as usize },
        ),
        sample_part(p, step) == only_if(
            p.master && is_due(step, p.num_iters as int, p.sample_every as int),
            TrainAction::Sample { step: step as usize },
        ),
        rescale_part(p, step) == only_if(p.rescale, TrainAction::Rescale { step: step as usize }),
        log_part(p, step) == only_if(
            step == 0 || (p.log_every > 0 && step % p.log_every as int == 0),
            TrainAction::Log {
                step: step as usize,
                window: if step == 0 {
                    0
                } else {
                    p.log_every
                },
            },
        ),
{
    hooks_fire_at_their_cadence(step, p.num_iters as int, p.eval_every as int);
    hooks_fire_at_their_cadence(step, p.num_iters as int, p.sample_every as int);
    if p.log_every > 0 {
        vstd::arithmetic::div_mod::lemma_small_mod(0, p.log_every as nat);
    }
}

/// A step evaluates and then samples, where that is due, and only the first rank
/// samples; runs its micro-batches in order; corrects the gradients, where targets
/// may be ignored; updates once; and logs, if it is a multiple of the cadence. Then
/// the next step follows. The last step only evaluates and samples.
pub proof fn steps_go_in_order(p: Pace, step: int)
    requires
        0 <= step <= p.num_iters,
    ensures
        plan(p) == plan_from(p, 0),
        ({
            let s = step as usize;
            let hooks = only_if(
                is_due(step, p.num_iters as int, p.eval_every as int),
                TrainAction::Eval { step: s },
            ) + only_if(
                p.master && is_due(step, p.num_iters as int, p.sample_every as int),
                TrainAction::Sample { step: s },
            );
            plan_from(p, step) == hooks + if step == p.num_iters {
                seq![TrainAction::Finish]
            } else {
                Seq::new(
                    p.grad_accum as nat,
                    |i: int| TrainAction::Micro { step: s, micro: i as usize },
                ) + only_if(p.rescale, TrainAction::Rescale { step: s }) + seq![
                    TrainAction::Update { step: s },
                ] + only_if(
                    step == 0 || (p.log_every > 0 && step % p.log_every as int == 0),
                    TrainAction::Log {
                        step: s,
                        window: if step == 0 {
                            0
                        } else {
                            p.log_every
                        },
                    },
                ) + plan_from(p, step + 1)
            }
        }),
{
    lemma_hooks(p, step);
    let (eval, sample) = (eval_part(p, step), sample_part(p, step));
    if step < p.num_iters {
        lemma_micros(p, step, 0);
        let all = Seq::new(
            p.grad_accum as nat,
            |i: int| TrainAction::Micro { step: step as usize, micro: i as usize },
        );
        assert(all =~= micros(p, step, 0));
        lemma_regroup(
            eval,
            sample,
            all,
            rescale_part(p, step),
            seq![TrainAction::Update { step: step as usize }],
            log_part(p, step),
            plan_from(p, step + 1),
        );
    } else {
        let end = seq![TrainAction::Finish];
        assert(eval + (sample + end) =~= eval + sample + end);
    }
}

// ---------------------------------------------------------------------------
// Parameters, times and samples
// ---------------------------------------------------------------------------

/// A group holds exactly the parameters whose names put them there, in order.
pub proof fn groups_hold_their_parameters(names: Seq<Seq<char>>, group: Group, n: int, i: int)
    requires
        0 <= n <= names.len() <= usize::MAX,
        0 <= i < names.len(),
    ensures
        group_members(names, group, n).contains(i as usize) <==> i < n && group_of(names[i])
            == Some(group),
        forall|a: int, b: int|
            0 <= a < b < group_members(names, group, n).len() ==> #[trigger] group_members(
                names,
                group,
                n,
            )[a] < #[trigger] group_members(names, group, n)[b],
        forall|a: int|
            0 <= a < group_members(names, group, n).len() ==> #[trigger] group_members(
                names,
                group,
                n,
            )[a] < n,
    decreases n,
{
    if n > 0 {
        groups_hold_their_parameters(names, group, n - 1, i);
        let before = group_members(names, group, n - 1);
        let all = group_members(names, group, n);
        if group_of(names[n - 1]) == Some(group) {
            assert(all == before.push((n - 1) as usize));
            if before.contains(i as usize) {
                let k = choose|k: int| 0 <= k < before.len() && before[k] == i as usize;
                assert(all[k] == i as usize);
            }
            if i == n - 1 {
                assert(all[before.len() as int] == i as usize);
            }
            if all.contains(i as usize) && i != n - 1 {
                let k = choose|k: int| 0 <= k < all.len() && all[k] == i as usize;
                assert(k < before.len());
                assert(before[k] == i as usize);
            }
        }
    }
}

/// The table of embeddings and the head have groups of their own; all matrices of
/// the blocks share one; and nothing else is trained.
pub proof fn parameters_are_grouped_by_name(name: Seq<char>)
    ensures
        group_of(name) == Some(Group::Embedding) <==> name == "wte.weight"@,
        group_of(name) == Some(Group::Unembedding) <==> name == "lm_head.weight"@,
        group_of(name) == Some(Group::Matrix) <==> name.len() >= 7 && name.subrange(0, 7)
            == "blocks."@,
{
    reveal_strlit("wte.weight");
    reveal_strlit("lm_head.weight");
    reveal_strlit("blocks.");
    if name.len() >= 7 {
        assert(name.subrange(0, 7) =~= name.take(7));
        assert(name.take(7)[0] == name[0]);
    }
    assert("wte.weight"@[0] != "lm_head.weight"@[0]);
    assert("wte.weight"@[0] != "blocks."@[0]);
    assert("lm_head.weight"@[0] != "blocks."@[0]);
    if name.len() >= 7 && name.subrange(0, 7) == "blocks."@ {
        assert(name[0] == "blocks."@[0]);
    }
}

/// A time is shown as hours, minutes and seconds that add up to it, with fewer than
/// sixty minutes and seconds.
pub proof fn times_add_up(secs: nat, h: nat, m: nat, s: nat)
    requires
        m < 60,
        s < 60,
        secs == 3600 * h + 60 * m + s,
    ensures
        hms(secs) == zero_padded(h, 2) + seq![':'] + zero_padded(m, 2) + seq![':'] + zero_padded(
            s,
            2,
        ),
{
    reveal_strlit(":");
    assert(":"@ =~= seq![':']);
    assert(secs / 3600 == h);
    assert((secs % 3600) / 60 == m);
    assert(secs % 60 == s);
}

/// A sample goes on from the start of a document and the prompt; in a chat, from the
/// prompt as a user's turn and the opening of a reply.
pub proof fn samples_continue_the_prompt(tok: BpeTokenizer, prompt: Seq<char>)
    ensures
        ({
            let first = tok.first_special();
            let ids = tok.text_ids(prompt);
            &&& sample_ids(tok, prompt, false) == seq![first as u32] + ids
            &&& sample_ids(tok, prompt, true) == seq![first as u32, (first + 1) as u32] + ids + seq![
                (first + 2) as u32,
                (first + 3) as u32,
            ]
        }),
{
    let first = tok.first_special();
    let ids = tok.text_ids(prompt);
    assert(sample_ids(tok, prompt, true) =~= seq![first as u32, (first + 1) as u32] + ids + seq![
        (first + 2) as u32,
        (first + 3) as u32,
    ]);
}

} // verus!
