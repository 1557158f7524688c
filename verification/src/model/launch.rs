//! Which operands attention takes, and how it reads them.
use vstd::prelude::*;

use super::flash_attention::{chunk_size_of, chunks_from};
use crate::flash_attn::{
    backward_fault, common_of, kernel_strides, packed_strides, qkv_fault, rounded_up, window_of,
    Operand, Sizes,
};
use crate::text::unsigned_value;

verus! {

/// Whether an operand has four dimensions, the last of 128 numbers side by side, of the
/// 16-bit type.
pub open spec fn is_rows_of_heads(op: Operand) -> bool {
    &&& op.dims@.len() == 4
    &&& op.dtype@ == "BF16"@
    &&& op.strides@[3] == 1
    &&& op.dims@[3] == 128
}

/// A forward pass takes queries, keys and values if and only if each is rows of heads,
/// keys and values have one shape, all have as many sequences and heads, there are
/// queries, and with a causal mask as many queries as keys.
pub proof fn forward_passes_check_their_operands(
    q: Operand,
    k: Operand,
    v: Operand,
    causal: bool,
)
    requires
        q.wf(),
        k.wf(),
        v.wf(),
    ensures
        qkv_fault(q, k, v, causal) is None <==> {
            &&& is_rows_of_heads(q)
            &&& is_rows_of_heads(k)
            &&& is_rows_of_heads(v)
            &&& v.dims@ == k.dims@
            &&& q.dims@[0] == k.dims@[0]
            &&& q.dims@[1] == k.dims@[1]
            &&& q.dims@[2] > 0
            &&& causal ==> q.dims@[2] == k.dims@[2]
        },
{
}

/// A backward pass takes what the forward pass takes, with the output and its gradient
/// of the shape of the queries, and a number for each row of each head in single
/// precision, side by side.
pub proof fn backward_passes_check_their_operands(
    q: Operand,
    k: Operand,
    v: Operand,
    o: Operand,
    lse: Operand,
    d_o: Operand,
    causal: bool,
)
    requires
        q.wf(),
        k.wf(),
        v.wf(),
        o.wf(),
        d_o.wf(),
    ensures
        backward_fault(q, k, v, o, lse, d_o, causal) is None <==> {
            &&& qkv_fault(q, k, v, causal) is None
            &&& is_rows_of_heads(o)
            &&& is_rows_of_heads(d_o)
            &&& o.dims@ == q.dims@
            &&& d_o.dims@ == q.dims@
            &&& lse.dtype@ == "F32"@
            &&& lse.dims@ == seq![q.dims@[0], q.dims@[1], q.dims@[2]]
            &&& lse.contiguous
        },
{
    if qkv_fault(q, k, v, causal) is None {
        assert(q.dims@.take(3) =~= seq![q.dims@[0], q.dims@[1], q.dims@[2]]);
    }
}

/// What is laid out without gaps is read without gaps: number `d` of the row at time `t`
/// of head `h` of sequence `b` stands behind all that come before it.
pub proof fn packed_operands_have_no_gaps(
    heads: int,
    time: int,
    b: int,
    h: int,
    t: int,
    d: int,
)
    requires
        0 <= heads,
        0 <= time,
        heads * time * 128 <= u32::MAX,
        time * 128 <= u32::MAX,
    ensures
        ({
            let s = kernel_strides(packed_strides(heads, time));
            b * s.batch + h * s.head + t * s.row + d == ((b * heads + h) * time + t) * 128 + d
        }),
{
    let s = kernel_strides(packed_strides(heads, time));
    assert(heads * time * 128 >= 0 && time * 128 >= 0) by (nonlinear_arith)
        requires
            heads >= 0,
            time >= 0,
    ;
    assert(s.batch == heads * time * 128);
    assert(s.head == time * 128);
    assert(s.row == 128);
    assert(b * (heads * time * 128) + h * (time * 128) + t * 128 == ((b * heads + h) * time + t)
        * 128) by (nonlinear_arith);
}

/// A length is rounded up to the next multiple, and not past it.
pub proof fn lengths_are_rounded_up(x: int, m: int)
    requires
        0 <= x,
        0 < m,
    ensures
        x <= rounded_up(x, m) < x + m,
        rounded_up(x, m) % m == 0,
{
    let q = (x + m - 1) / m;
    vstd::arithmetic::div_mod::lemma_fundamental_div_mod(x + m - 1, m);
    vstd::arithmetic::div_mod::lemma_mod_bound(x + m - 1, m);
    assert(q * m == m * q) by (nonlinear_arith);
    vstd::arithmetic::div_mod::lemma_mod_multiples_basic(q, m);
}

/// Without a mask a row sees all keys; with one it sees no key behind its own, which the
/// forward kernel is told and the backward kernel works out.
pub proof fn masks_hide_what_is_to_come(seqlen_k: usize)
    requires
        seqlen_k <= i32::MAX,
    ensures
        window_of(false, seqlen_k, true) == window_of(false, seqlen_k, false),
        window_of(false, seqlen_k, true).is_causal == 0,
        window_of(false, seqlen_k, true).left == -1,
        window_of(false, seqlen_k, true).right == -1,
        window_of(true, seqlen_k, true).is_causal == 1,
        window_of(true, seqlen_k, true).left == -1,
        window_of(true, seqlen_k, true).right == -1,
        window_of(true, seqlen_k, false).is_causal == 1,
        window_of(true, seqlen_k, false).left == seqlen_k,
        window_of(true, seqlen_k, false).right == 0,
{
}

/// All chunks but the last are of the full size.
pub proof fn only_the_last_chunk_is_short(t: int, kv_offset: int, chunk: int, start: int, i: int)
    requires
        chunk > 0,
        0 <= kv_offset,
        0 <= start < t,
        kv_offset + t <= usize::MAX,
        0 <= i < chunks_from(t, kv_offset, chunk, start).len() - 1,
    ensures
        chunks_from(t, kv_offset, chunk, start)[i].len == chunk,
    decreases t - start,
{
    let all = chunks_from(t, kv_offset, chunk, start);
    if chunk < t - start {
        let rest = chunks_from(t, kv_offset, chunk, start + chunk);
        if i > 0 {
            only_the_last_chunk_is_short(t, kv_offset, chunk, start + chunk, i - 1);
            assert(all[i] == rest[i - 1]);
        }
    } else {
        assert(chunks_from(t, kv_offset, chunk, t).len() == 0);
    }
}

/// A chunk size is taken from a setting that is a number above 0; any other is passed
/// over.
pub proof fn chunk_sizes_are_taken_from_the_setting(text: Seq<char>)
    ensures
        match unsigned_value(text, usize::MAX as nat) {
            Some(v) => if v > 0 {
                chunk_size_of(Some(text)) == v
            } else {
                chunk_size_of(Some(text)) == chunk_size_of(None)
            },
            None => chunk_size_of(Some(text)) == chunk_size_of(None),
        },
        chunk_size_of(None) > 0,
{
}

/// The kernels are told the sizes as they are, and the lengths also up to the end of
/// their last block.
pub proof fn kernels_are_told_the_sizes(s: Sizes, causal: bool, works_it_out: bool)
    requires
        s.batch <= u32::MAX,
        s.heads <= u32::MAX,
        s.seqlen_q + 127 <= u32::MAX,
        s.seqlen_k + 127 <= u32::MAX,
    ensures
        ({
            let c = common_of(s, causal, works_it_out);
            &&& c.batch == s.batch
            &&& c.heads == s.heads
            &&& c.head_dim == 128
            &&& c.head_dim_rounded == 128
            &&& c.seqlen_q == s.seqlen_q
            &&& c.seqlen_k == s.seqlen_k
            &&& s.seqlen_q <= c.seqlen_q_rounded < s.seqlen_q + 128
            &&& s.seqlen_k <= c.seqlen_k_rounded < s.seqlen_k + 128
            &&& c.seqlen_q_rounded % 128 == 0
            &&& c.seqlen_k_rounded % 128 == 0
            &&& c.window == window_of(causal, s.seqlen_k, works_it_out)
        }),
{
    lengths_are_rounded_up(s.seqlen_q as int, 128);
    lengths_are_rounded_up(s.seqlen_k as int, 128);
}

} // verus!
