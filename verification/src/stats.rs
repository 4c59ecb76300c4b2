use vstd::prelude::*;

verus! {

use crate::text::{dec_rep, digit_char, u64_to_string, digit_str, push_char};
use vstd::string::StringExecFns;

/// Traffic counters for one remote IP: bytes and packets in each
/// direction. Produced by a backend for one sampling interval, or held
/// by the accumulator as cumulative totals since process start.
#[derive(Clone, Copy, Debug, PartialEq, Eq, Structural)]
pub struct TrafficStats {
    pub tx_bytes: u64,
    pub rx_bytes: u64,
    pub tx_packets: u64,
    pub rx_packets: u64,
}

/// Saturating addition on a single counter: counters clamp at the
/// largest representable value rather than wrap or panic.
pub open spec fn sat_add(a: u64, b: u64) -> u64 {
    if a + b > u64::MAX {
        u64::MAX
    } else {
        (a + b) as u64
    }
}

/// Exec saturating addition, exact against `sat_add`.
pub fn sat_add_u64(a: u64, b: u64) -> (r: u64)
    ensures
        r == sat_add(a, b),
{
    if a <= u64::MAX - b {
        a + b
    } else {
        u64::MAX
    }
}

/// Saturating addition is commutative.
pub proof fn lemma_sat_add_comm(a: u64, b: u64)
    ensures
        sat_add(a, b) == sat_add(b, a),
{
}

/// Saturating addition is associative: both groupings clamp the
/// mathematical sum of all three counters at the same bound.
pub proof fn lemma_sat_add_assoc(a: u64, b: u64, c: u64)
    ensures
        sat_add(sat_add(a, b), c) == sat_add(a, sat_add(b, c)),
{
}

impl TrafficStats {
    /// The all-zero counters.
    pub open spec fn spec_zero() -> TrafficStats {
        TrafficStats { tx_bytes: 0, rx_bytes: 0, tx_packets: 0, rx_packets: 0 }
    }

    pub fn zero() -> (r: TrafficStats)
        ensures
            r == Self::spec_zero(),
    {
        TrafficStats { tx_bytes: 0, rx_bytes: 0, tx_packets: 0, rx_packets: 0 }
    }

    /// Field-wise saturating sum of two counter sets.
    pub open spec fn spec_add(a: TrafficStats, b: TrafficStats) -> TrafficStats {
        TrafficStats {
            tx_bytes: sat_add(a.tx_bytes, b.tx_bytes),
            rx_bytes: sat_add(a.rx_bytes, b.rx_bytes),
            tx_packets: sat_add(a.tx_packets, b.tx_packets),
            rx_packets: sat_add(a.rx_packets, b.rx_packets),
        }
    }

    /// Combines two counter sets by field-wise saturating addition.
    pub fn add(&self, other: &TrafficStats) -> (r: TrafficStats)
        ensures
            r == Self::spec_add(*self, *other),
    {
        TrafficStats {
            tx_bytes: sat_add_u64(self.tx_bytes, other.tx_bytes),
            rx_bytes: sat_add_u64(self.rx_bytes, other.rx_bytes),
            tx_packets: sat_add_u64(self.tx_packets, other.tx_packets),
            rx_packets: sat_add_u64(self.rx_packets, other.rx_packets),
        }
    }

    /// Combining counter sets is commutative.
    pub proof fn lemma_add_comm(a: TrafficStats, b: TrafficStats)
        ensures
            Self::spec_add(a, b) == Self::spec_add(b, a),
    {
        lemma_sat_add_comm(a.tx_bytes, b.tx_bytes);
        lemma_sat_add_comm(a.rx_bytes, b.rx_bytes);
        lemma_sat_add_comm(a.tx_packets, b.tx_packets);
        lemma_sat_add_comm(a.rx_packets, b.rx_packets);
    }

    /// Combining counter sets is associative.
    pub proof fn lemma_add_assoc(a: TrafficStats, b: TrafficStats, c: TrafficStats)
        ensures
            Self::spec_add(Self::spec_add(a, b), c) == Self::spec_add(a, Self::spec_add(b, c)),
    {
        lemma_sat_add_assoc(a.tx_bytes, b.tx_bytes, c.tx_bytes);
        lemma_sat_add_assoc(a.rx_bytes, b.rx_bytes, c.rx_bytes);
        lemma_sat_add_assoc(a.tx_packets, b.tx_packets, c.tx_packets);
        lemma_sat_add_assoc(a.rx_packets, b.rx_packets, c.rx_packets);
    }

    /// The zero counters are the identity of `spec_add`.
    pub proof fn lemma_add_zero(a: TrafficStats)
        ensures
            Self::spec_add(a, Self::spec_zero()) == a,
            Self::spec_add(Self::spec_zero(), a) == a,
    {
    }
}

impl Default for TrafficStats {
    /// Counters start at zero.
    fn default() -> (r: TrafficStats)
        ensures
            r == TrafficStats::spec_zero(),
    {
        TrafficStats { tx_bytes: 0, rx_bytes: 0, tx_packets: 0, rx_packets: 0 }
    }
}

/// A byte count in hundredths of a unit, rounded half up.
pub open spec fn scaled_hundredths(b: int, unit: int) -> int {
    (b * 100 + unit / 2) / unit
}

/// A byte count scaled to a unit, as a decimal with two fractional
/// digits.
pub open spec fn scaled_rep(b: int, unit: int) -> Seq<char> {
    let h = scaled_hundredths(b, unit);
    dec_rep(h / 100) + seq!['.', digit_char(h / 10 % 10), digit_char(h % 10)]
}

/// A byte count in the largest binary unit it reaches, with two
/// fractional digits (none for plain bytes). Rounding is to the
/// nearest hundredth, half up.
pub open spec fn format_bytes_rep(b: int) -> Seq<char> {
    if b >= 1073741824 {
        scaled_rep(b, 1073741824) + " GB"@
    } else if b >= 1048576 {
        scaled_rep(b, 1048576) + " MB"@
    } else if b >= 1024 {
        scaled_rep(b, 1024) + " KB"@
    } else {
        dec_rep(b) + " B"@
    }
}

/// Renders a scaled count with two fractional digits.
fn format_scaled(b: u64, unit: u64) -> (r: String)
    requires
        unit == 1024 || unit == 1048576 || unit == 1073741824,
    ensures
        r@ == scaled_rep(b as int, unit as int),
{
    proof {
        assert((b as int) * 100 <= (u64::MAX as int) * 100) by (nonlinear_arith)
            requires
                0 <= b as int <= u64::MAX as int,
        ;
    }
    let num: u128 = (b as u128) * 100 + ((unit / 2) as u128);
    let h: u128 = num / (unit as u128);
    proof {
        assert(h == scaled_hundredths(b as int, unit as int));
        assert(num <= (u64::MAX as u128) * 100 + 536870912);
        if unit == 1024 {
            assert(h == num / 1024);
        } else if unit == 1048576 {
            assert(h == num / 1048576);
        } else {
            assert(h == num / 1073741824);
        }
        assert(h <= u64::MAX as u128);
    }
    let whole: u64 = (h / 100) as u64;
    let tenths: u64 = ((h / 10) % 10) as u64;
    let hundredths: u64 = (h % 10) as u64;
    let mut out = u64_to_string(whole);
    push_char(&mut out, '.');
    out.append(digit_str(tenths));
    out.append(digit_str(hundredths));
    proof {
        assert(out@ =~= scaled_rep(b as int, unit as int));
    }
    out
}

/// Renders a byte count for display, exact against
/// `format_bytes_rep`.
pub fn format_bytes(bytes: u64) -> (r: String)
    ensures
        r@ == format_bytes_rep(bytes as int),
{
    if bytes >= 1073741824 {
        let mut s = format_scaled(bytes, 1073741824);
        s.append(" GB");
        s
    } else if bytes >= 1048576 {
        let mut s = format_scaled(bytes, 1048576);
        s.append(" MB");
        s
    } else if bytes >= 1024 {
        let mut s = format_scaled(bytes, 1024);
        s.append(" KB");
        s
    } else {
        let mut s = u64_to_string(bytes);
        s.append(" B");
        s
    }
}

} // verus!
