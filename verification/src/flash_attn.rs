//! What the fused attention kernels are launched with: a forward pass that keeps
//! the log-sum-exp, and the matching backward pass. The kernels end the process
//! on a shape that they do not take, so every such shape is refused here.
use vstd::prelude::*;

use crate::text::equals;

verus! {

/// The one head dimension that the kernels are built for.
pub const HEAD_DIM: usize = 128;

/// The operands of the kernels.
#[derive(Debug, Clone, Copy, PartialEq, Eq, Structural)]
pub enum Name {
    Q,
    K,
    V,
    O,
    DO,
    Lse,
}

/// A tensor as the kernels see it: its sizes, its strides in elements, the name
/// of its element type, and whether it is contiguous.
#[derive(Debug, Clone, PartialEq, Eq)]
pub struct Operand {
    pub dims: Vec<usize>,
    pub strides: Vec<usize>,
    pub dtype: String,
    pub contiguous: bool,
}

/// Why operands are refused.
#[derive(Debug, Clone, Copy, PartialEq, Eq, Structural)]
pub enum OperandError {
    /// It has not the four dimensions batch, head, time and head width.
    Rank { name: Name },
    /// It is not of the 16-bit type.
    Dtype { name: Name },
    /// The elements of a head are not next to each other.
    LastDim { name: Name },
    /// The kernels are not built for its head dimension.
    HeadDim { name: Name, head_dim: usize },
    /// The keys and the values have different shapes.
    KeysAndValues,
    /// The queries and the keys have different batch sizes.
    Batch,
    /// The queries have other heads than the keys.
    Heads { q: usize, k: usize },
    /// With a causal mask, queries and keys are not of one length.
    CausalLengths { q: usize, k: usize },
    /// There are no query rows.
    NoQueries,
    /// It has not the shape of the queries.
    NotLikeQueries { name: Name },
    /// The log-sum-exp is not of the 32-bit type.
    LseDtype,
    /// The log-sum-exp is not one contiguous number for each query row.
    LseShape,
}

impl Operand {
    /// Each size has a stride.
    pub open spec fn wf(self) -> bool {
        self.dims@.len() == self.strides@.len()
    }

    /// What is wrong with an operand by itself.
    pub open spec fn fault(self, name: Name) -> Option<OperandError> {
        if self.dims@.len() != 4 {
            Some(OperandError::Rank { name })
        } else if self.dtype@ != "BF16"@ {
            Some(OperandError::Dtype { name })
        } else if self.strides@[3] != 1 {
            Some(OperandError::LastDim { name })
        } else if self.dims@[3] != HEAD_DIM {
            Some(OperandError::HeadDim { name, head_dim: self.dims@[3] })
        } else {
            None
        }
    }
}

/// The batch size, the number of heads and the length of an operand, or what is
/// wrong with it.
pub fn check_bhtd(op: &Operand, name: Name) -> (r: Result<(usize, usize, usize), OperandError>)
    requires
        op.wf(),
    ensures
        match r {
            Ok(s) => {
                &&& op.fault(name) is None
                &&& op.dims@ == seq![s.0, s.1, s.2, HEAD_DIM]
            },
            Err(e) => op.fault(name) == Some(e),
        },
{
    if op.dims.len() != 4 {
        return Err(OperandError::Rank { name });
    }
    if !equals(op.dtype.as_str(), "BF16") {
        return Err(OperandError::Dtype { name });
    }
    if op.strides[3] != 1 {
        return Err(OperandError::LastDim { name });
    }
    if op.dims[3] != HEAD_DIM {
        return Err(OperandError::HeadDim { name, head_dim: op.dims[3] });
    }
    assert(op.dims@ =~= seq![op.dims@[0], op.dims@[1], op.dims@[2], HEAD_DIM]);
    Ok((op.dims[0], op.dims[1], op.dims[2]))
}

/// What is wrong with queries, keys and values.
pub open spec fn qkv_fault(q: Operand, k: Operand, v: Operand, causal: bool) -> Option<
    OperandError,
> {
    if q.fault(Name::Q) is Some {
        q.fault(Name::Q)
    } else if k.fault(Name::K) is Some {
        k.fault(Name::K)
    } else if v.fault(Name::V) is Some {
        v.fault(Name::V)
    } else if v.dims@ != k.dims@ {
        Some(OperandError::KeysAndValues)
    } else if q.dims@[0] != k.dims@[0] {
        Some(OperandError::Batch)
    } else if q.dims@[1] != k.dims@[1] {
        Some(OperandError::Heads { q: q.dims@[1], k: k.dims@[1] })
    } else if causal && q.dims@[2] != k.dims@[2] {
        Some(OperandError::CausalLengths { q: q.dims@[2], k: k.dims@[2] })
    } else if q.dims@[2] == 0 {
        Some(OperandError::NoQueries)
    } else {
        None
    }
}

/// The sizes that queries, keys and values agree on.
#[derive(Debug, Clone, Copy, PartialEq, Eq, Structural)]
pub struct Sizes {
    pub batch: usize,
    pub heads: usize,
    pub seqlen_q: usize,
    pub seqlen_k: usize,
}

/// The sizes that queries, keys and values agree on, or what is wrong with them.
/// Both passes go by this, so they take the same shapes.
pub fn check_qkv(q: &Operand, k: &Operand, v: &Operand, causal: bool) -> (r: Result<
    Sizes,
    OperandError,
>)
    requires
        q.wf(),
        k.wf(),
        v.wf(),
    ensures
        match r {
            Ok(s) => {
                &&& qkv_fault(*q, *k, *v, causal) is None
                &&& q.dims@ == seq![s.batch, s.heads, s.seqlen_q, HEAD_DIM]
                &&& k.dims@ == seq![s.batch, s.heads, s.seqlen_k, HEAD_DIM]
                &&& v.dims@ == k.dims@
                &&& causal ==> s.seqlen_q == s.seqlen_k
            },
            Err(e) => qkv_fault(*q, *k, *v, causal) == Some(e),
        },
{
    let qs = match check_bhtd(q, Name::Q) {
        Ok(s) => s,
        Err(e) => {
            return Err(e);
        },
    };
    let ks = match check_bhtd(k, Name::K) {
        Ok(s) => s,
        Err(e) => {
            return Err(e);
        },
    };
    let vs = match check_bhtd(v, Name::V) {
        Ok(s) => s,
        Err(e) => {
            return Err(e);
        },
    };
    assert(v.dims@ == k.dims@ <==> vs == ks) by {
        if v.dims@ == k.dims@ {
            assert(v.dims@[0] == vs.0 && v.dims@[1] == vs.1 && v.dims@[2] == vs.2);
            assert(k.dims@[0] == ks.0 && k.dims@[1] == ks.1 && k.dims@[2] == ks.2);
        }
    }
    if vs.0 != ks.0 || vs.1 != ks.1 || vs.2 != ks.2 {
        return Err(OperandError::KeysAndValues);
    }
    if qs.0 != ks.0 {
        return Err(OperandError::Batch);
    }
    if qs.1 != ks.1 {
        return Err(OperandError::Heads { q: qs.1, k: ks.1 });
    }
    if causal && qs.2 != ks.2 {
        return Err(OperandError::CausalLengths { q: qs.2, k: ks.2 });
    }
    if qs.2 == 0 {
        return Err(OperandError::NoQueries);
    }
    Ok(Sizes { batch: qs.0, heads: qs.1, seqlen_q: qs.2, seqlen_k: ks.2 })
}

/// Strides as the kernels take them: time comes before head.
#[derive(Debug, Clone, Copy, PartialEq, Eq, Structural)]
pub struct Strides {
    pub batch: u32,
    pub row: u32,
    pub head: u32,
}

/// The strides of four dimensions as the kernels take them.
pub open spec fn kernel_strides(strides: Seq<usize>) -> Strides {
    Strides { batch: strides[0] as u32, row: strides[2] as u32, head: strides[1] as u32 }
}

/// The strides of four dimensions as the kernels take them.
pub fn strides_bhtd(strides: &Vec<usize>) -> (s: Strides)
    requires
        strides@.len() == 4,
    ensures
        s == kernel_strides(strides@),
{
    Strides { batch: strides[0] as u32, row: strides[2] as u32, head: strides[1] as u32 }
}

/// The strides of a contiguous operand.
pub open spec fn packed_strides(heads: int, time: int) -> Seq<usize> {
    seq![
        (heads * time * HEAD_DIM) as usize,
        (time * HEAD_DIM) as usize,
        HEAD_DIM,
        1,
    ]
}

fn pack(heads: usize, time: usize) -> (strides: Vec<usize>)
    requires
        time * HEAD_DIM <= usize::MAX,
        heads * time * HEAD_DIM <= usize::MAX,
        heads * time <= usize::MAX,
    ensures
        strides@ == packed_strides(heads as int, time as int),
{
    let strides = vec![heads * time * HEAD_DIM, time * HEAD_DIM, HEAD_DIM, 1];
    assert(strides@ =~= packed_strides(heads as int, time as int));
    strides
}

/// How the kernels are told what a row may see.
#[derive(Debug, Clone, Copy, PartialEq, Eq, Structural)]
pub struct Window {
    pub is_causal: i32,
    pub left: i32,
    pub right: i32,
}

/// How a kernel is told what a row may see: all keys up to its own, or all. The
/// backward kernel works out the window of a causal mask by itself.
pub open spec fn window_of(causal: bool, seqlen_k: usize, kernel_works_it_out: bool) -> Window {
    if !causal {
        Window { is_causal: 0, left: (-1int) as i32, right: (-1int) as i32 }
    } else if kernel_works_it_out {
        Window { is_causal: 1, left: (-1int) as i32, right: (-1int) as i32 }
    } else {
        Window { is_causal: 1, left: seqlen_k as i32, right: 0 }
    }
}

/// How a kernel is told what a row may see.
pub fn window(causal: bool, seqlen_k: usize, kernel_works_it_out: bool) -> (w: Window)
    ensures
        w == window_of(causal, seqlen_k, kernel_works_it_out),
{
    if !causal {
        Window { is_causal: 0, left: -1, right: -1 }
    } else if kernel_works_it_out {
        Window { is_causal: 1, left: -1, right: -1 }
    } else {
        Window { is_causal: 1, left: seqlen_k as i32, right: 0 }
    }
}

/// The least multiple of `m` that is not below `x`.
pub open spec fn rounded_up(x: int, m: int) -> int {
    (x + m - 1) / m * m
}

/// The least multiple of `m` that is not below `x`.
pub fn round_multiple(x: usize, m: usize) -> (r: usize)
    requires
        m > 0,
        x + m - 1 <= usize::MAX,
    ensures
        r == rounded_up(x as int, m as int),
        x <= r < x + m,
        r % m == 0,
{
    proof {
        let (y, d) = (x + m - 1, m as int);
        vstd::arithmetic::div_mod::lemma_fundamental_div_mod(y, d);
        vstd::arithmetic::div_mod::lemma_mod_bound(y, d);
        vstd::arithmetic::div_mod::lemma_mod_multiples_basic(y / d, d);
        assert((y / d) * d == d * (y / d)) by (nonlinear_arith);
    }
    (x + (m - 1)) / m * m
}

/// What both kernels are told of the sizes.
#[derive(Debug, Clone, Copy, PartialEq, Eq, Structural)]
pub struct Common {
    pub batch: u32,
    pub heads: u32,
    pub head_dim: u32,
    pub head_dim_rounded: u32,
    pub seqlen_q: u32,
    pub seqlen_k: u32,
    pub seqlen_q_rounded: u32,
    pub seqlen_k_rounded: u32,
    pub window: Window,
}

/// What both kernels are told of the sizes: the lengths also rounded up to
/// blocks of 128.
pub open spec fn common_of(s: Sizes, causal: bool, kernel_works_it_out: bool) -> Common {
    Common {
        batch: s.batch as u32,
        heads: s.heads as u32,
        head_dim: 128,
        head_dim_rounded: 128,
        seqlen_q: s.seqlen_q as u32,
        seqlen_k: s.seqlen_k as u32,
        seqlen_q_rounded: rounded_up(s.seqlen_q as int, 128) as usize as u32,
        seqlen_k_rounded: rounded_up(s.seqlen_k as int, 128) as usize as u32,
        window: window_of(causal, s.seqlen_k, kernel_works_it_out),
    }
}

/// The buffers of these sizes can be counted.
pub open spec fn sizes_fit(batch: int, heads: int, seqlen: int) -> bool {
    &&& seqlen + 127 <= usize::MAX
    &&& heads * (seqlen + 127) <= usize::MAX
    &&& (seqlen + 127) * HEAD_DIM <= usize::MAX
    &&& heads * (seqlen + 127) * HEAD_DIM <= usize::MAX
    &&& batch * (heads * (seqlen + 127) * HEAD_DIM) <= usize::MAX
    &&& batch * (heads * (seqlen + 127)) <= usize::MAX
}

/// The buffers for operands can be counted.
pub open spec fn operands_fit(q: Operand, k: Operand) -> bool {
    &&& sizes_fit(q.dims@[0] as int, q.dims@[1] as int, q.dims@[2] as int)
    &&& sizes_fit(k.dims@[0] as int, k.dims@[1] as int, k.dims@[2] as int)
}

proof fn lemma_sizes(batch: int, heads: int, seqlen: int, n: int)
    requires
        0 <= batch,
        0 <= heads,
        0 <= n <= seqlen + 127,
        sizes_fit(batch, heads, seqlen),
    ensures
        n * HEAD_DIM <= usize::MAX,
        heads * n <= usize::MAX,
        heads * n * HEAD_DIM <= usize::MAX,
        batch * (heads * n) <= usize::MAX,
        batch * (heads * n * HEAD_DIM) <= usize::MAX,
        heads * n * HEAD_DIM == heads * (n * HEAD_DIM),
        0 <= heads * n,
{
    let m = seqlen + 127;
    assert(0 <= heads * n <= heads * m) by (nonlinear_arith)
        requires
            0 <= n <= m,
            0 <= heads,
    ;
    let (a, b) = (heads * n, heads * m);
    assert(a * HEAD_DIM <= b * HEAD_DIM);
    assert(batch * a <= batch * b) by (nonlinear_arith)
        requires
            0 <= a <= b,
            0 <= batch,
    ;
    let (c, d) = (a * HEAD_DIM, b * HEAD_DIM);
    assert(batch * c <= batch * d) by (nonlinear_arith)
        requires
            c <= d,
            0 <= batch,
    ;
    assert(heads * n * HEAD_DIM == heads * (n * HEAD_DIM)) by (nonlinear_arith);
}

fn common(s: &Sizes, causal: bool, kernel_works_it_out: bool) -> (c: Common)
    requires
        s.seqlen_q + 127 <= usize::MAX,
        s.seqlen_k + 127 <= usize::MAX,
    ensures
        c == common_of(*s, causal, kernel_works_it_out),
{
    Common {
        batch: s.batch as u32,
        heads: s.heads as u32,
        head_dim: 128,
        head_dim_rounded: 128,
        seqlen_q: s.seqlen_q as u32,
        seqlen_k: s.seqlen_k as u32,
        seqlen_q_rounded: round_multiple(s.seqlen_q, 128) as u32,
        seqlen_k_rounded: round_multiple(s.seqlen_k, 128) as u32,
        window: window(causal, s.seqlen_k, kernel_works_it_out),
    }
}

/// What the forward kernel is launched with.
#[derive(Debug, Clone, PartialEq, Eq)]
pub struct ForwardLaunch {
    pub sizes: Sizes,
    /// The elements of the output, in the layout of the queries.
    pub out_len: usize,
    /// The numbers of the log-sum-exp: one for each query row.
    pub lse_len: usize,
    pub q: Strides,
    pub k: Strides,
    pub v: Strides,
    pub o: Strides,
    pub common: Common,
}

/// What the forward kernel is launched with, or what is wrong with the operands.
pub fn flash_attn_fwd_lse(q: &Operand, k: &Operand, v: &Operand, causal: bool) -> (r: Result<
    ForwardLaunch,
    OperandError,
>)
    requires
        q.wf(),
        k.wf(),
        v.wf(),
        qkv_fault(*q, *k, *v, causal) is None ==> operands_fit(*q, *k),
    ensures
        match r {
            Ok(l) => {
                &&& qkv_fault(*q, *k, *v, causal) is None
                &&& q.dims@ == seq![
                    l.sizes.batch,
                    l.sizes.heads,
                    l.sizes.seqlen_q,
                    HEAD_DIM,
                ]
                &&& k.dims@ == seq![
                    l.sizes.batch,
                    l.sizes.heads,
                    l.sizes.seqlen_k,
                    HEAD_DIM,
                ]
                &&& l.out_len == l.sizes.batch * (l.sizes.heads * l.sizes.seqlen_q * HEAD_DIM)
                &&& l.lse_len == l.sizes.batch * (l.sizes.heads * l.sizes.seqlen_q)
                &&& l.q == kernel_strides(q.strides@)
                &&& l.k == kernel_strides(k.strides@)
                &&& l.v == kernel_strides(v.strides@)
                &&& l.o == kernel_strides(
                    packed_strides(l.sizes.heads as int, l.sizes.seqlen_q as int),
                )
                &&& l.common == common_of(l.sizes, causal, false)
            },
            Err(e) => qkv_fault(*q, *k, *v, causal) == Some(e),
        },
{
    let s = match check_qkv(q, k, v, causal) {
        Ok(s) => s,
        Err(e) => {
            return Err(e);
        },
    };
    proof {
        assert(q.dims@[0] == s.batch && q.dims@[1] == s.heads && q.dims@[2] == s.seqlen_q);
        assert(k.dims@[2] == s.seqlen_k);
        lemma_sizes(s.batch as int, s.heads as int, s.seqlen_q as int, s.seqlen_q as int);
    }
    let rows: usize = s.heads * s.seqlen_q;
    let out = pack(s.heads, s.seqlen_q);
    Ok(
        ForwardLaunch {
            sizes: s,
            out_len: s.batch * (rows * HEAD_DIM),
            lse_len: s.batch * rows,
            q: strides_bhtd(&q.strides),
            k: strides_bhtd(&k.strides),
            v: strides_bhtd(&v.strides),
            o: strides_bhtd(&out),
            common: common(&s, causal, false),
        },
    )
}

/// What is wrong with the operands of a backward pass.
pub open spec fn backward_fault(
    q: Operand,
    k: Operand,
    v: Operand,
    o: Operand,
    lse: Operand,
    d_o: Operand,
    causal: bool,
) -> Option<OperandError> {
    if qkv_fault(q, k, v, causal) is Some {
        qkv_fault(q, k, v, causal)
    } else if o.fault(Name::O) is Some {
        o.fault(Name::O)
    } else if o.dims@ != q.dims@ {
        Some(OperandError::NotLikeQueries { name: Name::O })
    } else if d_o.fault(Name::DO) is Some {
        d_o.fault(Name::DO)
    } else if d_o.dims@ != q.dims@ {
        Some(OperandError::NotLikeQueries { name: Name::DO })
    } else if lse.dtype@ != "F32"@ {
        Some(OperandError::LseDtype)
    } else if lse.dims@ != q.dims@.take(3) || !lse.contiguous {
        Some(OperandError::LseShape)
    } else {
        None
    }
}

/// What the backward kernel is launched with.
#[derive(Debug, Clone, PartialEq, Eq)]
pub struct BackwardLaunch {
    pub sizes: Sizes,
    /// The elements of the gradient of the queries, in their layout.
    pub dq_len: usize,
    /// The elements of the gradient of the keys, and of the values.
    pub dkv_len: usize,
    /// The numbers in which the gradient of the queries is gathered.
    pub dq_accum_len: usize,
    /// The numbers of the row sums.
    pub dsoftmax_len: usize,
    pub q: Strides,
    pub k: Strides,
    pub v: Strides,
    pub o: Strides,
    pub d_o: Strides,
    pub dq: Strides,
    pub dkv: Strides,
    pub common: Common,
}

/// Whether an operand has the sizes of the queries.
fn like_queries(op: &Operand, s: &Sizes, t: (usize, usize, usize)) -> (r: bool)
    requires
        op.dims@ == seq![t.0, t.1, t.2, HEAD_DIM],
    ensures
        r == (op.dims@ == seq![s.batch, s.heads, s.seqlen_q, HEAD_DIM]),
{
    let same = t.0 == s.batch && t.1 == s.heads && t.2 == s.seqlen_q;
    proof {
        let want = seq![s.batch, s.heads, s.seqlen_q, HEAD_DIM];
        if op.dims@ == want {
            assert(op.dims@[0] == want[0] && op.dims@[1] == want[1] && op.dims@[2] == want[2]);
        }
    }
    same
}

/// What the backward kernel is launched with, or what is wrong with the
/// operands.
pub fn flash_attn_bwd(
    q: &Operand,
    k: &Operand,
    v: &Operand,
    o: &Operand,
    lse: &Operand,
    d_o: &Operand,
    causal: bool,
) -> (r: Result<BackwardLaunch, OperandError>)
    requires
        q.wf(),
        k.wf(),
        v.wf(),
        o.wf(),
        lse.wf(),
        d_o.wf(),
        backward_fault(*q, *k, *v, *o, *lse, *d_o, causal) is None ==> operands_fit(*q, *k),
    ensures
        match r {
            Ok(l) => {
                &&& backward_fault(*q, *k, *v, *o, *lse, *d_o, causal) is None
                &&& q.dims@ == seq![
                    l.sizes.batch,
                    l.sizes.heads,
                    l.sizes.seqlen_q,
                    HEAD_DIM,
                ]
                &&& k.dims@ == seq![
                    l.sizes.batch,
                    l.sizes.heads,
                    l.sizes.seqlen_k,
                    HEAD_DIM,
                ]
                &&& l.dq_len == l.sizes.batch * (l.sizes.heads * l.sizes.seqlen_q * HEAD_DIM)
                &&& l.dkv_len == l.sizes.batch * (l.sizes.heads * l.sizes.seqlen_k * HEAD_DIM)
                &&& l.dq_accum_len == l.sizes.batch * (l.sizes.heads * rounded_up(
                    l.sizes.seqlen_q as int,
                    128,
                ) * HEAD_DIM)
                &&& l.dsoftmax_len == l.sizes.batch * (l.sizes.heads * rounded_up(
                    l.sizes.seqlen_q as int,
                    128,
                ))
                &&& l.q == kernel_strides(q.strides@)
                &&& l.k == kernel_strides(k.strides@)
                &&& l.v == kernel_strides(v.strides@)
                &&& l.o == kernel_strides(o.strides@)
                &&& l.d_o == kernel_strides(d_o.strides@)
                &&& l.dq == kernel_strides(
                    packed_strides(l.sizes.heads as int, l.sizes.seqlen_q as int),
                )
                &&& l.dkv == kernel_strides(
                    packed_strides(l.sizes.heads as int, l.sizes.seqlen_k as int),
                )
                &&& l.common == common_of(l.sizes, causal, true)
            },
            Err(e) => backward_fault(*q, *k, *v, *o, *lse, *d_o, causal) == Some(e),
        },
{
    let s = match check_qkv(q, k, v, causal) {
        Ok(s) => s,
        Err(e) => {
            return Err(e);
        },
    };
    let os = match check_bhtd(o, Name::O) {
        Ok(s) => s,
        Err(e) => {
            return Err(e);
        },
    };
    if !like_queries(o, &s, os) {
        return Err(OperandError::NotLikeQueries { name: Name::O });
    }
    let ds = match check_bhtd(d_o, Name::DO) {
        Ok(s) => s,
        Err(e) => {
            return Err(e);
        },
    };
    if !like_queries(d_o, &s, ds) {
        return Err(OperandError::NotLikeQueries { name: Name::DO });
    }
    if !equals(lse.dtype.as_str(), "F32") {
        return Err(OperandError::LseDtype);
    }
    let ghost rows = q.dims@.take(3);
    assert(rows =~= seq![s.batch, s.heads, s.seqlen_q]);
    if lse.dims.len() != 3 {
        return Err(OperandError::LseShape);
    }
    let same = lse.dims[0] == s.batch && lse.dims[1] == s.heads && lse.dims[2] == s.seqlen_q;
    assert(same == (lse.dims@ == rows)) by {
        if same {
            assert(lse.dims@ =~= rows);
        } else if lse.dims@ == rows {
            assert(lse.dims@[0] == rows[0] && lse.dims@[1] == rows[1] && lse.dims@[2] == rows[2]);
        }
    }
    if !same || !lse.contiguous {
        return Err(OperandError::LseShape);
    }
    proof {
        assert(q.dims@[0] == s.batch && q.dims@[1] == s.heads && q.dims@[2] == s.seqlen_q);
        assert(k.dims@[0] == s.batch && k.dims@[1] == s.heads && k.dims@[2] == s.seqlen_k);
        let (b, h) = (s.batch as int, s.heads as int);
        lemma_sizes(b, h, s.seqlen_q as int, s.seqlen_q as int);
        lemma_sizes(b, h, s.seqlen_k as int, s.seqlen_k as int);
    }
    let rounded: usize = round_multiple(s.seqlen_q, 128);
    proof {
        let (b, h) = (s.batch as int, s.heads as int);
        lemma_sizes(b, h, s.seqlen_q as int, rounded as int);
    }
    let dq = pack(s.heads, s.seqlen_q);
    let dkv = pack(s.heads, s.seqlen_k);
    Ok(
        BackwardLaunch {
            sizes: s,
            dq_len: s.batch * (s.heads * s.seqlen_q * HEAD_DIM),
            dkv_len: s.batch * (s.heads * s.seqlen_k * HEAD_DIM),
            dq_accum_len: s.batch * (s.heads * rounded * HEAD_DIM),
            dsoftmax_len: s.batch * (s.heads * rounded),
            q: strides_bhtd(&q.strides),
            k: strides_bhtd(&k.strides),
            v: strides_bhtd(&v.strides),
            o: strides_bhtd(&o.strides),
            d_o: strides_bhtd(&d_o.strides),
            dq: strides_bhtd(&dq),
            dkv: strides_bhtd(&dkv),
            common: common(&s, causal, true),
        },
    )
}

/// Where a backward pass takes the operands, the forward pass takes them too.
pub proof fn passes_take_the_same_shapes(
    q: Operand,
    k: Operand,
    v: Operand,
    o: Operand,
    lse: Operand,
    d_o: Operand,
    causal: bool,
)
    requires
        backward_fault(q, k, v, o, lse, d_o, causal) is None,
    ensures
        qkv_fault(q, k, v, causal) is None,
        o.dims@ == q.dims@,
        d_o.dims@ == q.dims@,
{
}

/// With a causal mask, a launch is for queries and keys of one length, where the
/// mask of the kernels has only one meaning.
pub proof fn causal_passes_are_square(q: Operand, k: Operand, v: Operand)
    requires
        q.wf(),
        k.wf(),
        v.wf(),
        qkv_fault(q, k, v, true) is None,
    ensures
        q.dims@ == k.dims@,
{
    assert(q.dims@ =~= k.dims@);
}

} // verus!
