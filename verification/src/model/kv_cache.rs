//! Which rows of the key and value buffers are filled when a text is generated
//! token by token.
use vstd::prelude::*;

use crate::model::config::GptConfig;
use crate::text::{decimal, push_decimal};

verus! {

/// The shape of a buffer, or of a span that goes into one.
#[derive(Debug, Clone, Copy, PartialEq, Eq, Structural)]
pub struct Dims {
    pub batch: usize,
    pub heads: usize,
    pub time: usize,
    pub head_dim: usize,
}

/// A buffer for the keys or the values of one layer, filled from left to right.
/// It has no length of its own.
#[derive(Debug, Clone, Copy, PartialEq, Eq, Structural)]
pub struct Cache {
    /// The shape, once it is allocated.
    pub buf: Option<Dims>,
    pub capacity: usize,
}

/// What appending a span comes to.
#[derive(Debug, Clone, Copy, PartialEq, Eq, Structural)]
pub struct Append {
    /// The shape to allocate first.
    pub allocate: Option<Dims>,
    /// The time to write the span at.
    pub at: usize,
    /// How many rows to read, from the first on.
    pub prefix: usize,
}

impl Cache {
    /// A buffer that is not allocated yet.
    pub fn new(capacity: usize) -> (c: Cache)
        ensures
            c == (Cache { buf: None, capacity }),
    {
        Cache { buf: None, capacity }
    }

    /// The buffer that a span goes into.
    pub open spec fn shape_for(self, src: Dims) -> Dims {
        Dims { time: self.capacity, ..src }
    }

    /// Appends a span: writes it at a time, and reads all rows up to its end.
    /// The first span decides the shape of the buffer.
    pub fn append(&mut self, src: Dims, at: usize) -> (r: Append)
        requires
            at + src.time <= usize::MAX,
        ensures
            final(self).capacity == old(self).capacity,
            final(self).buf == match old(self).buf {
                Some(shape) => Some(shape),
                None => Some(old(self).shape_for(src)),
            },
            r.allocate == match old(self).buf {
                Some(_) => None,
                None => Some(old(self).shape_for(src)),
            },
            r.at == at,
            r.prefix == at + src.time,
    {
        let mut allocate: Option<Dims> = None;
        if self.buf.is_none() {
            let shape = Dims {
                batch: src.batch,
                heads: src.heads,
                time: self.capacity,
                head_dim: src.head_dim,
            };
            self.buf = Some(shape);
            allocate = Some(shape);
        }
        Append { allocate, at, prefix: at + src.time }
    }
}

/// The buffers of one layer.
#[derive(Debug, Clone, Copy, PartialEq, Eq, Structural)]
pub struct LayerKv {
    pub k: Cache,
    pub v: Cache,
}

impl LayerKv {
    /// Appends the keys and values of a span, at the same time.
    pub fn append(&mut self, k: Dims, v: Dims, at: usize) -> (r: (Append, Append))
        requires
            at + k.time <= usize::MAX,
            at + v.time <= usize::MAX,
        ensures
            final(self).k.capacity == old(self).k.capacity,
            final(self).v.capacity == old(self).v.capacity,
            final(self).k.buf == match old(self).k.buf {
                Some(shape) => Some(shape),
                None => Some(old(self).k.shape_for(k)),
            },
            final(self).v.buf == match old(self).v.buf {
                Some(shape) => Some(shape),
                None => Some(old(self).v.shape_for(v)),
            },
            r.0.allocate is Some <==> old(self).k.buf is None,
            r.0.allocate is Some ==> r.0.allocate == final(self).k.buf,
            r.0.at == at,
            r.0.prefix == at + k.time,
            r.1.allocate is Some <==> old(self).v.buf is None,
            r.1.allocate is Some ==> r.1.allocate == final(self).v.buf,
            r.1.at == at,
            r.1.prefix == at + v.time,
    {
        let kept = self.k.append(k, at);
        let more = self.v.append(v, at);
        (kept, more)
    }
}

/// Why a cache is refused, or a span.
#[derive(Debug, Clone, Copy, PartialEq, Eq, Structural)]
pub enum CacheError {
    /// It would be longer than the model's context.
    TooLong { capacity: usize, sequence_len: usize },
    /// It would not fit.
    Overflow { cached: usize, new: usize, capacity: usize },
}

impl CacheError {
    /// The error as a sentence.
    pub open spec fn sentence(self) -> Seq<char> {
        match self {
            CacheError::TooLong { capacity, sequence_len } => "kv-cache capacity ("@ + decimal(
                capacity as nat,
            ) + ") exceeds sequence_len ("@ + decimal(sequence_len as nat)
                + "): RoPE tables and the causal mask are sized to sequence_len"@,
            CacheError::Overflow { cached, new, capacity } => "kv-cache overflow: "@ + decimal(
                cached as nat,
            ) + " cached + "@ + decimal(new as nat) + " new exceeds capacity "@ + decimal(
                capacity as nat,
            ),
        }
    }

    /// The error as a sentence.
    pub fn message(&self) -> (s: String)
        ensures
            s@ == self.sentence(),
    {
        match self {
            CacheError::TooLong { capacity, sequence_len } => {
                let mut s = String::from_str("kv-cache capacity (");
                push_decimal(&mut s, *capacity as u64);
                s.append(") exceeds sequence_len (");
                push_decimal(&mut s, *sequence_len as u64);
                s.append("): RoPE tables and the causal mask are sized to sequence_len");
                s
            },
            CacheError::Overflow { cached, new, capacity } => {
                let mut s = String::from_str("kv-cache overflow: ");
                push_decimal(&mut s, *cached as u64);
                s.append(" cached + ");
                push_decimal(&mut s, *new as u64);
                s.append(" new exceeds capacity ");
                push_decimal(&mut s, *capacity as u64);
                s
            },
        }
    }
}

/// The buffers of all layers, and the one position that they share.
#[derive(Debug, Clone, PartialEq, Eq)]
pub struct KvCache {
    pub layers: Vec<LayerKv>,
    /// How many tokens are cached.
    pub len: usize,
    /// How many tokens it can hold.
    pub capacity: usize,
}

impl KvCache {
    /// It holds no more than it can.
    pub open spec fn wf(self) -> bool {
        self.len <= self.capacity
    }

    /// An empty cache for contexts of up to `capacity` tokens.
    pub fn new(cfg: &GptConfig, capacity: usize) -> (r: Result<KvCache, CacheError>)
        ensures
            match r {
                Ok(c) => {
                    &&& capacity <= cfg.sequence_len
                    &&& c.wf()
                    &&& c.len == 0
                    &&& c.capacity == capacity
                    &&& c.layers@.len() == cfg.n_layer
                    &&& forall|i: int|
                        0 <= i < cfg.n_layer ==> #[trigger] c.layers@[i] == (LayerKv {
                            k: Cache { buf: None, capacity },
                            v: Cache { buf: None, capacity },
                        })
                },
                Err(e) => {
                    &&& capacity > cfg.sequence_len
                    &&& e == (CacheError::TooLong { capacity, sequence_len: cfg.sequence_len })
                },
            },
    {
        if capacity > cfg.sequence_len {
            return Err(CacheError::TooLong { capacity, sequence_len: cfg.sequence_len });
        }
        let mut layers: Vec<LayerKv> = Vec::new();
        let mut i: usize = 0;
        while i < cfg.n_layer
            invariant
                i <= cfg.n_layer,
                layers@.len() == i,
                forall|k: int|
                    0 <= k < i ==> #[trigger] layers@[k] == (LayerKv {
                        k: Cache { buf: None, capacity },
                        v: Cache { buf: None, capacity },
                    }),
            decreases cfg.n_layer - i,
        {
            layers.push(LayerKv { k: Cache::new(capacity), v: Cache::new(capacity) });
            i += 1;
        }
        Ok(KvCache { layers, len: 0, capacity })
    }

    /// How many tokens are cached: the position at which the next span starts.
    pub fn pos(&self) -> (n: usize)
        ensures
            n == self.len,
    {
        self.len
    }

    /// Goes back to the start. The buffers stay.
    pub fn reset(&mut self)
        ensures
            final(self).len == 0,
            final(self).capacity == old(self).capacity,
            final(self).layers == old(self).layers,
    {
        self.len = 0;
    }

    /// Checks that `t` more tokens fit.
    pub fn check_room(&self, t: usize) -> (r: Result<(), CacheError>)
        requires
            self.wf(),
        ensures
            match r {
                Ok(_) => self.len + t <= self.capacity,
                Err(e) => {
                    &&& self.len + t > self.capacity
                    &&& e is Overflow
                    &&& e->cached == self.len
                    &&& e->new == t
                    &&& e->Overflow_capacity == self.capacity
                },
            },
    {
        if t > self.capacity - self.len {
            return Err(
                CacheError::Overflow { cached: self.len, new: t, capacity: self.capacity },
            );
        }
        Ok(())
    }

    /// Moves past `t` more tokens, once every layer holds them.
    pub fn advance(&mut self, t: usize)
        requires
            old(self).wf(),
            old(self).len + t <= old(self).capacity,
        ensures
            final(self).wf(),
            final(self).len == old(self).len + t,
            final(self).capacity == old(self).capacity,
            final(self).layers == old(self).layers,
    {
        self.len = self.len + t;
    }

    /// The buffers of layer `i`. The other layers stay as they are.
    pub fn layer_mut(&mut self, i: usize) -> (layer: &mut LayerKv)
        requires
            i < old(self).layers@.len(),
        ensures
            *layer == old(self).layers@[i as int],
            final(self).layers@ == old(self).layers@.update(i as int, *final(layer)),
            final(self).len == old(self).len,
            final(self).capacity == old(self).capacity,
    {
        &mut self.layers[i]
    }
}

/// A buffer's rows once a span has been written at a time.
pub open spec fn rows_after<R>(rows: Seq<R>, at: int, span: Seq<R>) -> Seq<R> {
    rows.take(at) + span + rows.skip(at + span.len())
}

/// Whatever stands in a buffer past the position (nothing yet, what a reset
/// left, or what a failed pass wrote), a pass that appends at the position reads
/// what was there before it and then its own span.
pub proof fn appends_read_the_running_prefix<R>(rows: Seq<R>, at: int, span: Seq<R>)
    requires
        0 <= at,
        at + span.len() <= rows.len(),
    ensures
        rows_after(rows, at, span).len() == rows.len(),
        rows_after(rows, at, span).take(at + span.len()) == rows.take(at) + span,
{
    assert(rows_after(rows, at, span).take(at + span.len()) =~= rows.take(at) + span);
}

/// A span that was written by a failed pass is gone once the pass is repeated
/// at the same position.
pub proof fn repeated_passes_overwrite<R>(rows: Seq<R>, at: int, lost: Seq<R>, span: Seq<R>)
    requires
        0 <= at,
        at + lost.len() <= rows.len(),
        at + span.len() <= rows.len(),
    ensures
        rows_after(rows_after(rows, at, lost), at, span).take(at + span.len()) == rows_after(
            rows,
            at,
            span,
        ).take(at + span.len()),
{
    let twice = rows_after(rows_after(rows, at, lost), at, span);
    assert(twice.take(at + span.len()) =~= rows_after(rows, at, span).take(at + span.len()));
}

} // verus!
