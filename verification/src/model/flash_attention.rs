//! Attention in chunks of query rows, each over no more keys than its rows may
//! see.
use vstd::prelude::*;

use crate::text::{chars_of, decimal, parse_unsigned, push_decimal, unsigned_value};

verus! {

/// The query rows of a chunk, unless it is set otherwise.
pub const FLASH_CHUNK: usize = 128;

/// The setting that changes it.
pub const ENV_FLASH_CHUNK: &'static str = "FLASH_CHUNK";

/// The chunk size for a setting: what it spells if that is a positive number,
/// and the default otherwise.
pub open spec fn chunk_size_of(setting: Option<Seq<char>>) -> nat {
    match setting {
        Some(text) => match unsigned_value(text, usize::MAX as nat) {
            Some(v) => if v > 0 {
                v
            } else {
                FLASH_CHUNK as nat
            },
            None => FLASH_CHUNK as nat,
        },
        None => FLASH_CHUNK as nat,
    }
}

/// The chunk size for a setting.
pub fn flash_chunk(setting: Option<&str>) -> (n: usize)
    ensures
        n == chunk_size_of(
            match setting {
                Some(text) => Some(text@),
                None => None,
            },
        ),
        n > 0,
{
    match setting {
        Some(text) => {
            let chars = chars_of(text);
            match parse_unsigned(chars.as_slice(), usize::MAX as u64) {
                Some(v) => {
                    if v > 0 {
                        v as usize
                    } else {
                        FLASH_CHUNK
                    }
                },
                None => FLASH_CHUNK,
            }
        },
        None => FLASH_CHUNK,
    }
}

/// One chunk: its first query row, how many rows it has, and how many keys they
/// are scored against.
#[derive(Debug, Clone, Copy, PartialEq, Eq, Structural)]
pub struct Chunk {
    pub start: usize,
    pub len: usize,
    pub width: usize,
}

/// The chunks of the rows from `start` on. The last may be short. The first row
/// stands at position `kv_offset`, so the keys of a chunk are those up to its
/// last row's position.
pub open spec fn chunks_from(t: int, kv_offset: int, chunk: int, start: int) -> Seq<Chunk>
    decreases t - start,
{
    if start >= t || chunk <= 0 {
        Seq::empty()
    } else {
        let len = if chunk < t - start {
            chunk
        } else {
            t - start
        };
        seq![
            Chunk {
                start: start as usize,
                len: len as usize,
                width: (kv_offset + start + len) as usize,
            },
        ] + chunks_from(t, kv_offset, chunk, start + len)
    }
}

/// The chunks of `t` query rows.
pub fn chunks(t: usize, kv_offset: usize, chunk: usize) -> (out: Vec<Chunk>)
    requires
        chunk > 0,
        kv_offset + t <= usize::MAX,
    ensures
        out@ == chunks_from(t as int, kv_offset as int, chunk as int, 0),
{
    let mut out: Vec<Chunk> = Vec::new();
    let mut start: usize = 0;
    assert(out@ + chunks_from(t as int, kv_offset as int, chunk as int, 0) =~= chunks_from(
        t as int,
        kv_offset as int,
        chunk as int,
        0,
    ));
    while start < t
        invariant
            chunk > 0,
            kv_offset + t <= usize::MAX,
            start <= t,
            out@ + chunks_from(t as int, kv_offset as int, chunk as int, start as int)
                == chunks_from(t as int, kv_offset as int, chunk as int, 0),
        decreases t - start,
    {
        let len: usize = if chunk < t - start {
            chunk
        } else {
            t - start
        };
        let ghost before = out@;
        let c = Chunk { start, len, width: kv_offset + start + len };
        out.push(c);
        assert(out@ + chunks_from(t as int, kv_offset as int, chunk as int, start + len) =~= before
            + chunks_from(t as int, kv_offset as int, chunk as int, start as int));
        start += len;
    }
    assert(out@ + chunks_from(t as int, kv_offset as int, chunk as int, start as int) =~= out@);
    out
}

/// The query row `row` may see the key at position `key`.
pub open spec fn sees(kv_offset: int, row: int, key: int) -> bool {
    0 <= key <= kv_offset + row
}

/// Every query row lies in exactly one chunk, chunk after chunk, and a chunk's
/// keys are all that its rows may see and none past its last row. So a chunk's
/// keys end where its rows do, and with no offset the keys of the chunks before
/// it end where it starts.
pub proof fn chunks_cover_what_is_seen(t: int, kv_offset: int, chunk: int, start: int, i: int)
    requires
        chunk > 0,
        0 <= kv_offset,
        0 <= start < t,
        kv_offset + t <= usize::MAX,
        0 <= i < chunks_from(t, kv_offset, chunk, start).len(),
    ensures
        ({
            let all = chunks_from(t, kv_offset, chunk, start);
            let c = all[i];
            &&& 0 < c.len <= chunk
            &&& c.start == if i == 0 {
                start
            } else {
                all[i - 1].start + all[i - 1].len
            }
            &&& c.width == kv_offset + c.start + c.len
            &&& c.start + c.len <= t
            &&& i == all.len() - 1 ==> c.start + c.len == t
            &&& forall|row: int, key: int|
                c.start <= row < c.start + c.len && #[trigger] sees(kv_offset, row, key) ==> key
                    < c.width
            &&& sees(kv_offset, c.start + c.len - 1, c.width - 1)
        }),
    decreases t - start,
{
    let len = if chunk < t - start {
        chunk
    } else {
        t - start
    };
    let all = chunks_from(t, kv_offset, chunk, start);
    let rest = chunks_from(t, kv_offset, chunk, start + len);
    assert(all[0].start == start);
    if i == 0 {
        if start + len < t {
            assert(rest.len() > 0);
        }
    } else {
        assert(all[i] == rest[i - 1]);
        if i > 1 {
            assert(all[i - 1] == rest[i - 2]);
        }
        chunks_cover_what_is_seen(t, kv_offset, chunk, start + len, i - 1);
    }
}

/// What to say of keys and values that are not the prefix of the query rows.
pub open spec fn prefix_fault(kv_offset: int, t_q: int, k_len: int, v_len: int) -> Option<
    Seq<char>,
> {
    let want = kv_offset + t_q;
    if k_len == want && v_len == want {
        None
    } else {
        Some(
            "flash-attn no-grad: k/v length "@ + decimal(k_len as nat) + "/"@ + decimal(
                v_len as nat,
            ) + " must equal kv_offset ("@ + decimal(kv_offset as nat) + ") + T_q ("@ + decimal(
                t_q as nat,
            ) + ") = "@ + decimal(want as nat),
        )
    }
}

/// Checks that the keys and values are exactly those up to the last query row.
pub fn check_prefix(kv_offset: usize, t_q: usize, k_len: usize, v_len: usize) -> (r: Result<
    (),
    String,
>)
    requires
        kv_offset + t_q <= usize::MAX,
    ensures
        match r {
            Ok(_) => prefix_fault(
                kv_offset as int,
                t_q as int,
                k_len as int,
                v_len as int,
            ) is None,
            Err(e) => prefix_fault(kv_offset as int, t_q as int, k_len as int, v_len as int)
                == Some(e@),
        },
{
    let want: usize = kv_offset + t_q;
    if k_len != want || v_len != want {
        let mut e = String::from_str("flash-attn no-grad: k/v length ");
        push_decimal(&mut e, k_len as u64);
        e.append("/");
        push_decimal(&mut e, v_len as u64);
        e.append(" must equal kv_offset (");
        push_decimal(&mut e, kv_offset as u64);
        e.append(") + T_q (");
        push_decimal(&mut e, t_q as u64);
        e.append(") = ");
        push_decimal(&mut e, want as u64);
        return Err(e);
    }
    Ok(())
}

} // verus!
