//! The training mixture: several datasets rendered one after the other, then
//! shuffled once with a seed.
use vstd::prelude::*;

use super::pack::{all_packable, conv_views};
use crate::shuffle::{
    numbers, rearrange, rearranged, rearranging_keeps_the_items, shuffled, shuffled_numbers,
};
use crate::text::{decimal, push_decimal};
use crate::tokenizer::bpe::BpeTokenizer;
use crate::tokenizer::chat::{
    at_most, conversation_fault, renderable, rendering, ChatError, Conversation,
    RenderedConversation,
};

verus! {

/// What one dataset contributes. The name stands in error messages.
pub struct Source {
    pub name: &'static str,
    pub conversations: Vec<Conversation>,
}

/// A conversation that cannot be rendered: number `index` of source `source`,
/// both counted from 0.
#[derive(Debug, Clone, Copy, PartialEq, Eq)]
pub struct MixtureError {
    pub source: usize,
    pub name: &'static str,
    pub index: usize,
    pub error: ChatError,
}

impl MixtureError {
    /// The error as a sentence.
    pub open spec fn sentence(self) -> Seq<char> {
        self.name@ + "["@ + decimal(self.index as nat) + "]: "@ + self.error.sentence()
    }

    /// The error as a sentence.
    pub fn message(&self) -> (s: String)
        ensures
            s@ == self.sentence(),
    {
        let mut s = String::from_str(self.name);
        s.append("[");
        push_decimal(&mut s, self.index as u64);
        s.append("]: ");
        s.append(self.error.message().as_str());
        s
    }
}

/// The first `n` conversations rendered, or the first with a fault. `None` if
/// the regex engine gives up on one before that.
pub open spec fn rendered_convs(
    tok: BpeTokenizer,
    convs: Seq<Conversation>,
    capacity: int,
    n: int,
) -> Option<Result<Seq<Seq<(u32, bool)>>, (int, ChatError)>>
    decreases n,
{
    if n <= 0 {
        Some(Ok(Seq::empty()))
    } else {
        match rendered_convs(tok, convs, capacity, n - 1) {
            Some(Ok(s)) => if !renderable(convs[n - 1].messages@) {
                None
            } else {
                match conversation_fault(convs[n - 1].messages@) {
                    Some(e) => Some(Err((n - 1, e))),
                    None => Some(
                        Ok(s.push(at_most(rendering(tok, convs[n - 1].messages@), capacity))),
                    ),
                }
            },
            other => other,
        }
    }
}

/// The conversations of the first `n` sources rendered, or the first with a
/// fault.
pub open spec fn rendered_sources(
    tok: BpeTokenizer,
    sources: Seq<Source>,
    capacity: int,
    n: int,
) -> Option<Result<Seq<Seq<(u32, bool)>>, (int, int, ChatError)>>
    decreases n,
{
    if n <= 0 {
        Some(Ok(Seq::empty()))
    } else {
        match rendered_sources(tok, sources, capacity, n - 1) {
            Some(Ok(s)) => {
                let convs = sources[n - 1].conversations@;
                match rendered_convs(tok, convs, capacity, convs.len() as int) {
                    None => None,
                    Some(Ok(t)) => Some(Ok(s + t)),
                    Some(Err(e)) => Some(Err((n - 1, e.0, e.1))),
                }
            },
            other => other,
        }
    }
}

/// All sources rendered in order.
pub open spec fn rendered_all(tok: BpeTokenizer, sources: Seq<Source>, capacity: int) -> Option<
    Result<Seq<Seq<(u32, bool)>>, (int, int, ChatError)>,
> {
    rendered_sources(tok, sources, capacity, sources.len() as int)
}

/// The mixture: what was rendered, in the order of the seed.
pub open spec fn mixed(rendered: Seq<Seq<(u32, bool)>>, seed: u64) -> Seq<Seq<(u32, bool)>> {
    rearranged(rendered, shuffled(numbers(rendered.len()), seed))
}

proof fn lemma_convs_stuck(
    tok: BpeTokenizer,
    convs: Seq<Conversation>,
    capacity: int,
    m: int,
    n: int,
)
    requires
        m <= n,
        !(rendered_convs(tok, convs, capacity, m) matches Some(Ok(_))),
    ensures
        rendered_convs(tok, convs, capacity, n) == rendered_convs(tok, convs, capacity, m),
    decreases n - m,
{
    if m < n {
        lemma_convs_stuck(tok, convs, capacity, m, n - 1);
    }
}

proof fn lemma_sources_stuck(
    tok: BpeTokenizer,
    sources: Seq<Source>,
    capacity: int,
    m: int,
    n: int,
)
    requires
        m <= n,
        !(rendered_sources(tok, sources, capacity, m) matches Some(Ok(_))),
    ensures
        rendered_sources(tok, sources, capacity, n) == rendered_sources(tok, sources, capacity, m),
    decreases n - m,
{
    if m < n {
        lemma_sources_stuck(tok, sources, capacity, m, n - 1);
    }
}

/// Whether each rendered conversation has a mask for each id.
spec fn all_wf(convs: Seq<RenderedConversation>) -> bool {
    forall|i: int| 0 <= i < convs.len() ==> (#[trigger] convs[i]).wf()
}

/// Appends the rendered conversations of one source.
fn render_source(
    tok: &BpeTokenizer,
    convs: &Vec<Conversation>,
    capacity: usize,
    out: &mut Vec<RenderedConversation>,
) -> (r: Option<Result<(), (usize, ChatError)>>)
    requires
        all_wf(old(out)@),
    ensures
        all_wf(final(out)@),
        match r {
            None => rendered_convs(*tok, convs@, capacity as int, convs@.len() as int) is None,
            Some(Err(e)) => rendered_convs(
                *tok,
                convs@,
                capacity as int,
                convs@.len() as int,
            ) == Some(Err::<Seq<Seq<(u32, bool)>>, (int, ChatError)>((e.0 as int, e.1))),
            Some(Ok(_)) => {
                &&& rendered_convs(
                    *tok,
                    convs@,
                    capacity as int,
                    convs@.len() as int,
                ) matches Some(Ok(t))
                &&& conv_views(final(out)@) == conv_views(old(out)@) + t
            },
        },
{
    let ghost start = conv_views(out@);
    let ghost n = convs@.len() as int;
    let ghost cap = capacity as int;
    let mut i: usize = 0;
    assert(conv_views(out@) =~= start + Seq::<Seq<(u32, bool)>>::empty());
    while i < convs.len()
        invariant
            i <= convs@.len(),
            n == convs@.len(),
            cap == capacity,
            start == conv_views(old(out)@),
            all_wf(out@),
            rendered_convs(*tok, convs@, cap, i as int) matches Some(Ok(t)) && conv_views(out@)
                == start + t,
        decreases convs@.len() - i,
    {
        match tok.render_if_split(&convs[i], capacity) {
            None => {
                proof {
                    lemma_convs_stuck(*tok, convs@, cap, i + 1, n);
                }
                return None;
            },
            Some(Err(e)) => {
                proof {
                    lemma_convs_stuck(*tok, convs@, cap, i + 1, n);
                }
                return Some(Err((i, e)));
            },
            Some(Ok(one)) => {
                let ghost before = conv_views(out@);
                let ghost done = rendered_convs(*tok, convs@, cap, i as int)->0->Ok_0;
                out.push(one);
                proof {
                    assert(conv_views(out@) =~= before.push(one@));
                    assert(start + done.push(one@) =~= (start + done).push(one@));
                }
            },
        }
        i += 1;
    }
    Some(Ok(()))
}

/// Renders all sources in order.
fn render_sources(tok: &BpeTokenizer, sources: &Vec<Source>, capacity: usize) -> (r: Option<
    Result<Vec<RenderedConversation>, MixtureError>,
>)
    ensures
        match r {
            None => rendered_all(*tok, sources@, capacity as int) is None,
            Some(Err(e)) => {
                &&& rendered_all(*tok, sources@, capacity as int) == Some(
                    Err::<Seq<Seq<(u32, bool)>>, (int, int, ChatError)>(
                        (e.source as int, e.index as int, e.error),
                    ),
                )
                &&& e.source < sources@.len()
                &&& e.name == sources@[e.source as int].name
            },
            Some(Ok(out)) => {
                &&& rendered_all(*tok, sources@, capacity as int) == Some(
                    Ok::<Seq<Seq<(u32, bool)>>, (int, int, ChatError)>(conv_views(out@)),
                )
                &&& all_wf(out@)
            },
        },
{
    let mut out: Vec<RenderedConversation> = Vec::new();
    let ghost n = sources@.len() as int;
    let ghost cap = capacity as int;
    let mut s: usize = 0;
    assert(conv_views(out@) =~= Seq::<Seq<(u32, bool)>>::empty());
    while s < sources.len()
        invariant
            s <= sources@.len(),
            n == sources@.len(),
            cap == capacity,
            all_wf(out@),
            rendered_sources(*tok, sources@, cap, s as int) == Some(
                Ok::<Seq<Seq<(u32, bool)>>, (int, int, ChatError)>(conv_views(out@)),
            ),
        decreases sources@.len() - s,
    {
        match render_source(tok, &sources[s].conversations, capacity, &mut out) {
            None => {
                proof {
                    lemma_sources_stuck(*tok, sources@, cap, s + 1, n);
                }
                return None;
            },
            Some(Err(e)) => {
                proof {
                    lemma_sources_stuck(*tok, sources@, cap, s + 1, n);
                }
                return Some(
                    Err(
                        MixtureError {
                            source: s,
                            name: sources[s].name,
                            index: e.0,
                            error: e.1,
                        },
                    ),
                );
            },
            Some(Ok(_)) => {},
        }
        s += 1;
    }
    Some(Ok(out))
}

/// Every rendered conversation has a token, and no more than a row holds.
proof fn lemma_rendered_packable(
    tok: BpeTokenizer,
    sources: Seq<Source>,
    capacity: int,
    n: int,
)
    requires
        capacity >= 1,
        rendered_sources(tok, sources, capacity, n) matches Some(Ok(_)),
    ensures
        all_packable(rendered_sources(tok, sources, capacity, n)->0->Ok_0, capacity),
    decreases n,
{
    if n > 0 {
        lemma_rendered_packable(tok, sources, capacity, n - 1);
        let convs = sources[n - 1].conversations@;
        lemma_convs_packable(tok, convs, capacity, convs.len() as int);
        let a = rendered_sources(tok, sources, capacity, n - 1)->0->Ok_0;
        let b = rendered_convs(tok, convs, capacity, convs.len() as int)->0->Ok_0;
        assert forall|i: int| 0 <= i < (a + b).len() implies 0 < (#[trigger] (a + b)[i]).len()
            <= capacity by {
            if i < a.len() {
                assert((a + b)[i] == a[i]);
            } else {
                assert((a + b)[i] == b[i - a.len()]);
            }
        }
    }
}

proof fn lemma_convs_packable(
    tok: BpeTokenizer,
    convs: Seq<Conversation>,
    capacity: int,
    n: int,
)
    requires
        capacity >= 1,
        rendered_convs(tok, convs, capacity, n) matches Some(Ok(_)),
    ensures
        all_packable(rendered_convs(tok, convs, capacity, n)->0->Ok_0, capacity),
    decreases n,
{
    if n > 0 {
        lemma_convs_packable(tok, convs, capacity, n - 1);
    }
}

/// The mixture in the order of the seed.
fn mix(rendered: Vec<RenderedConversation>, seed: u64) -> (out: Vec<RenderedConversation>)
    requires
        all_wf(rendered@),
    ensures
        conv_views(out@) == mixed(conv_views(rendered@), seed),
        conv_views(out@).to_multiset() == conv_views(rendered@).to_multiset(),
        all_wf(out@),
{
    let order = shuffled_numbers(rendered.len(), seed);
    let out = rearrange(rendered, &order);
    proof {
        assert(conv_views(out@) =~= mixed(conv_views(rendered@), seed));
        rearranging_keeps_the_items(conv_views(rendered@), order@);
    }
    out
}

/// Renders and shuffles the sources; `None` if the regex engine gives up on a
/// text before the first fault.
pub(crate) fn mix_if_split(
    tok: &BpeTokenizer,
    sources: &Vec<Source>,
    row_capacity: usize,
    seed: u64,
) -> (r: Option<Result<Vec<RenderedConversation>, MixtureError>>)
    ensures
        match r {
            None => rendered_all(*tok, sources@, row_capacity as int) is None,
            Some(Err(e)) => {
                &&& rendered_all(*tok, sources@, row_capacity as int) == Some(
                    Err::<Seq<Seq<(u32, bool)>>, (int, int, ChatError)>(
                        (e.source as int, e.index as int, e.error),
                    ),
                )
                &&& e.source < sources@.len()
                &&& e.name == sources@[e.source as int].name
            },
            Some(Ok(out)) => {
                &&& rendered_all(*tok, sources@, row_capacity as int) matches Some(Ok(all))
                &&& conv_views(out@) == mixed(all, seed)
                &&& conv_views(out@).to_multiset() == all.to_multiset()
                &&& forall|i: int| 0 <= i < out@.len() ==> (#[trigger] out@[i]).wf()
                &&& row_capacity >= 1 ==> all_packable(conv_views(out@), row_capacity as int)
            },
        },
{
    match render_sources(tok, sources, row_capacity) {
        None => None,
        Some(Err(e)) => Some(Err(e)),
        Some(Ok(rendered)) => {
            let ghost all = conv_views(rendered@);
            let out = mix(rendered, seed);
            proof {
                if row_capacity >= 1 {
                    lemma_rendered_packable(
                        *tok,
                        sources@,
                        row_capacity as int,
                        sources@.len() as int,
                    );
                    broadcast use vstd::seq_lib::group_to_multiset_ensures;

                    assert forall|i: int| 0 <= i < conv_views(out@).len() implies 0 < (
                    #[trigger] conv_views(out@)[i]).len() <= row_capacity by {
                        let x = conv_views(out@)[i];
                        assert(conv_views(out@).contains(x));
                        assert(all.to_multiset().count(x) > 0);
                        assert(all.contains(x));
                        let k = choose|k: int| 0 <= k < all.len() && all[k] == x;
                        assert(0 < all[k].len() <= row_capacity);
                    }
                }
            }
            Some(Ok(out))
        },
    }
}

/// Renders every conversation of the sources, cut off at `row_capacity`, and
/// returns them in the order of the seed. The order is fixed by the seed and
/// the number of conversations.
pub fn render_mixture(
    tok: &BpeTokenizer,
    sources: Vec<Source>,
    row_capacity: usize,
    seed: u64,
) -> (r: Result<Vec<RenderedConversation>, MixtureError>)
    requires
        rendered_all(*tok, sources@, row_capacity as int) is Some,
    ensures
        match r {
            Err(e) => {
                &&& rendered_all(*tok, sources@, row_capacity as int) == Some(
                    Err::<Seq<Seq<(u32, bool)>>, (int, int, ChatError)>(
                        (e.source as int, e.index as int, e.error),
                    ),
                )
                &&& e.source < sources@.len()
                &&& e.name == sources@[e.source as int].name
            },
            Ok(out) => {
                &&& rendered_all(*tok, sources@, row_capacity as int) matches Some(Ok(all))
                &&& conv_views(out@) == mixed(all, seed)
                &&& conv_views(out@).to_multiset() == all.to_multiset()
                &&& forall|i: int| 0 <= i < out@.len() ==> (#[trigger] out@[i]).wf()
                &&& row_capacity >= 1 ==> all_packable(conv_views(out@), row_capacity as int)
            },
        },
{
    match mix_if_split(tok, &sources, row_capacity, seed) {
        None => {
            assert(false);
            Ok(Vec::new())
        },
        Some(r) => r,
    }
}

/// Whether the regex engine splits every text that is rendered before the
/// first fault.
pub fn can_render_mixture(tok: &BpeTokenizer, sources: &Vec<Source>, row_capacity: usize) -> (r:
    bool)
    ensures
        r == rendered_all(*tok, sources@, row_capacity as int) is Some,
{
    render_sources(tok, sources, row_capacity).is_some()
}

/// Renders and shuffles the sources; `None` if the regex engine gives up on a
/// text.
pub fn try_render_mixture(
    tok: &BpeTokenizer,
    sources: Vec<Source>,
    row_capacity: usize,
    seed: u64,
) -> (r: Option<Result<Vec<RenderedConversation>, MixtureError>>)
    ensures
        match r {
            None => rendered_all(*tok, sources@, row_capacity as int) is None,
            Some(Err(e)) => {
                &&& rendered_all(*tok, sources@, row_capacity as int) == Some(
                    Err::<Seq<Seq<(u32, bool)>>, (int, int, ChatError)>(
                        (e.source as int, e.index as int, e.error),
                    ),
                )
                &&& e.source < sources@.len()
                &&& e.name == sources@[e.source as int].name
            },
            Some(Ok(out)) => {
                &&& rendered_all(*tok, sources@, row_capacity as int) matches Some(Ok(all))
                &&& conv_views(out@) == mixed(all, seed)
                &&& conv_views(out@).to_multiset() == all.to_multiset()
                &&& forall|i: int| 0 <= i < out@.len() ==> (#[trigger] out@[i]).wf()
                &&& row_capacity >= 1 ==> all_packable(conv_views(out@), row_capacity as int)
            },
        },
{
    if can_render_mixture(tok, &sources, row_capacity) {
        Some(render_mixture(tok, sources, row_capacity, seed))
    } else {
        None
    }
}

} // verus!
