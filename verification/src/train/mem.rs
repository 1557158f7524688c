//! Figures of a device's memory pool.
use vstd::prelude::*;

use crate::binary64::{fixed, nearest, to_double, whole, Double};
use crate::text::equals;

verus! {

/// The environment variable that asks for tracing: unset or `0` for none, `1`
/// for a sample per logged step, `2` for one per micro-batch as well.
pub const ENV_MEM_TRACE: &'static str = "RS_NANOGPT_MEM_TRACE";

/// One snapshot of a memory pool, in bytes.
#[derive(Debug, Clone, Copy, PartialEq, Eq, Structural)]
pub struct PoolStats {
    /// What the pool holds from the driver.
    pub reserved: u64,
    /// The most it held since the marks were reset.
    pub reserved_high: u64,
    /// What is handed out to live allocations.
    pub used: u64,
    /// The most that was handed out since the marks were reset.
    pub used_high: u64,
    /// What is free on the device.
    pub dev_free: u64,
    /// What the device has in all.
    pub dev_total: u64,
}

impl Default for PoolStats {
    fn default() -> (r: PoolStats)
        ensures
            r == (PoolStats {
                reserved: 0,
                reserved_high: 0,
                used: 0,
                used_high: 0,
                dev_free: 0,
                dev_total: 0,
            }),
    {
        PoolStats {
            reserved: 0,
            reserved_high: 0,
            used: 0,
            used_high: 0,
            dev_free: 0,
            dev_total: 0,
        }
    }
}

/// Bytes in decimal gigabytes, as a double-precision number.
pub open spec fn gigabytes(bytes: u64) -> (nat, nat) {
    nearest(whole(bytes as nat), 1_000_000_000)
}

/// Appends bytes in decimal gigabytes, with `digits` decimal places.
fn push_gb(s: &mut String, bytes: u64, digits: u64)
    requires
        digits == 1 || digits == 2,
    ensures
        final(s)@ == old(s)@ + fixed(gigabytes(bytes), digits as nat),
{
    let n: u128 = to_double(bytes);
    let d = Double::quotient(n, 1_000_000_000);
    proof {
        let m = d.mantissa as int;
        let u = d.unit as int;
        assert(m <= 0x1_0000_0000_0000 * u) by (nonlinear_arith)
            requires
                m * 1_000_000_000 <= n * u + 1_000_000_000,
                n <= 2 * 0xffff_ffff_ffff_ffffint,
                u > 0,
        ;
    }
    d.push_fixed(s, digits);
}

impl PoolStats {
    /// What the pool holds but has not handed out.
    pub open spec fn unused(self) -> u64 {
        if self.reserved >= self.used {
            (self.reserved - self.used) as u64
        } else {
            0
        }
    }

    /// What the pool holds but has not handed out; 0 where more is handed out
    /// than held.
    pub fn fragmentation(&self) -> (r: u64)
        ensures
            r == self.unused(),
    {
        if self.reserved >= self.used {
            self.reserved - self.used
        } else {
            0
        }
    }

    /// The snapshot as one line.
    pub open spec fn line(self) -> Seq<char> {
        "used "@ + fixed(gigabytes(self.used), 2) + " GB (peak "@ + fixed(
            gigabytes(self.used_high),
            2,
        ) + ") | reserved "@ + fixed(gigabytes(self.reserved), 2) + " GB (peak "@ + fixed(
            gigabytes(self.reserved_high),
            2,
        ) + ") | frag "@ + fixed(gigabytes(self.unused()), 2) + " GB | dev_free "@ + fixed(
            gigabytes(self.dev_free),
            1,
        ) + "/"@ + fixed(gigabytes(self.dev_total), 1) + " GB"@
    }

    /// The snapshot as one line, in decimal gigabytes.
    pub fn summary(&self) -> (s: String)
        ensures
            s@ == self.line(),
    {
        let mut s = String::from_str("used ");
        push_gb(&mut s, self.used, 2);
        s.append(" GB (peak ");
        push_gb(&mut s, self.used_high, 2);
        s.append(") | reserved ");
        push_gb(&mut s, self.reserved, 2);
        s.append(" GB (peak ");
        push_gb(&mut s, self.reserved_high, 2);
        s.append(") | frag ");
        push_gb(&mut s, self.fragmentation(), 2);
        s.append(" GB | dev_free ");
        push_gb(&mut s, self.dev_free, 1);
        s.append("/");
        push_gb(&mut s, self.dev_total, 1);
        s.append(" GB");
        s
    }
}

/// The level of tracing that a setting asks for. A setting that is none of the
/// known ones asks for none.
pub open spec fn trace_level(raw: Option<Seq<char>>) -> Option<u8> {
    match raw {
        None => None,
        Some(s) => if s == "1"@ {
            Some(1)
        } else if s == "2"@ {
            Some(2)
        } else {
            None
        },
    }
}

/// The level of tracing that a setting asks for.
pub fn parse_verbosity(raw: Option<&str>) -> (r: Option<u8>)
    ensures
        r == trace_level(
            match raw {
                Some(s) => Some(s@),
                None => None,
            },
        ),
{
    match raw {
        None => None,
        Some(s) => {
            if equals(s, "1") {
                Some(1)
            } else if equals(s, "2") {
                Some(2)
            } else {
                None
            }
        },
    }
}

/// Whether a setting is one of the known ones.
pub fn is_known_setting(raw: Option<&str>) -> (r: bool)
    ensures
        r == match raw {
            None => true,
            Some(s) => s@.len() == 0 || s@ == "0"@ || s@ == "1"@ || s@ == "2"@,
        },
{
    match raw {
        None => true,
        Some(s) => s.is_empty() || equals(s, "0") || equals(s, "1") || equals(s, "2"),
    }
}

/// A probe of a memory pool, with its level of tracing.
#[derive(Debug, Clone, Copy, PartialEq, Eq, Structural)]
pub struct MemProbe {
    pub verbosity: u8,
}

/// What a setting and a device come to.
#[derive(Debug, Clone, Copy, PartialEq, Eq, Structural)]
pub enum ProbeSetup {
    /// No tracing was asked for.
    Off,
    /// Tracing was asked for, but the device has no memory pool to read.
    Unavailable,
    /// Tracing is on.
    On { probe: MemProbe },
}

impl MemProbe {
    /// Whether there is tracing: only if the setting asks for it and the device
    /// has a pool.
    pub fn from_setting(raw: Option<&str>, has_pool: bool) -> (r: ProbeSetup)
        ensures
            r == match trace_level(
                match raw {
                    Some(s) => Some(s@),
                    None => None,
                },
            ) {
                None => ProbeSetup::Off,
                Some(verbosity) => if has_pool {
                    ProbeSetup::On { probe: (MemProbe { verbosity }) }
                } else {
                    ProbeSetup::Unavailable
                },
            },
    {
        match parse_verbosity(raw) {
            None => ProbeSetup::Off,
            Some(verbosity) => {
                if has_pool {
                    ProbeSetup::On { probe: MemProbe { verbosity } }
                } else {
                    ProbeSetup::Unavailable
                }
            },
        }
    }

    /// Whether every micro-batch is sampled.
    pub fn per_micro(&self) -> (r: bool)
        ensures
            r == (self.verbosity >= 2),
    {
        self.verbosity >= 2
    }
}

/// What the pool holds is what it has handed out and what it has not, unless it says
/// that it has handed out more than it holds.
pub proof fn pools_hold_what_they_handed_out_and_more(s: PoolStats)
    ensures
        s.used <= s.reserved ==> s.unused() + s.used == s.reserved,
        s.used > s.reserved ==> s.unused() == 0,
{
}

/// Tracing is asked for by one of two words, each for its own level, and by no other.
pub proof fn tracing_is_asked_for_by_level(s: Seq<char>)
    ensures
        trace_level(Some(s)) == Some(1u8) <==> s == seq!['1'],
        trace_level(Some(s)) == Some(2u8) <==> s == seq!['2'],
        s != seq!['1'] && s != seq!['2'] ==> trace_level(Some(s)) is None,
        trace_level(None) is None,
{
    reveal_strlit("1");
    reveal_strlit("2");
    assert("1"@ =~= seq!['1']);
    assert("2"@ =~= seq!['2']);
    assert(seq!['1'][0] != seq!['2'][0]);
}

} // verus!
