use vstd::prelude::*;

verus! {

use crate::text::{
    all_digits,
    digits_val,
    split_char,
    split_char_exec,
    trim_spaces,
    trim_chars,
    parse_u64,
};

/// A transfer rate as an exact fraction `num / den` of bytes per
/// second. The capture tool prints rates as a decimal number with a
/// binary-prefixed bit or byte unit; keeping the fraction exact lets
/// the per-interval byte count be computed without rounding.
pub struct Rate {
    pub num: u64,
    pub den: u64,
}

/// Strips one rate-unit suffix: `Kb`, `Mb`, `Gb` are binary-prefixed
/// bits, a bare `b` is bits, `B` is bytes, and no suffix means bits.
/// Returns the remaining number text and the scale of the unit as a
/// fraction of bytes (numerator, denominator).
pub open spec fn split_unit(s: Seq<char>) -> (Seq<char>, int, int) {
    let n = s.len() as int;
    if n >= 2 && s[n - 2] == 'K' && s[n - 1] == 'b' {
        (s.subrange(0, n - 2), 1024, 8)
    } else if n >= 2 && s[n - 2] == 'M' && s[n - 1] == 'b' {
        (s.subrange(0, n - 2), 1048576, 8)
    } else if n >= 2 && s[n - 2] == 'G' && s[n - 1] == 'b' {
        (s.subrange(0, n - 2), 1073741824, 8)
    } else if n >= 1 && s[n - 1] == 'b' {
        (s.subrange(0, n - 1), 1, 8)
    } else if n >= 1 && s[n - 1] == 'B' {
        (s.subrange(0, n - 1), 1, 1)
    } else {
        (s, 1, 8)
    }
}

pub open spec fn pow10(n: int) -> int
    decreases n,
{
    if n <= 0 {
        1
    } else {
        10 * pow10(n - 1)
    }
}

pub proof fn lemma_pow10_pos(n: int)
    ensures
        pow10(n) >= 1,
    decreases n,
{
    if n > 0 {
        lemma_pow10_pos(n - 1);
    }
}

pub proof fn lemma_pow10_mono(a: int, b: int)
    requires
        a <= b,
    ensures
        pow10(a) <= pow10(b),
    decreases b - a,
{
    if a < b {
        lemma_pow10_mono(a, b - 1);
        lemma_pow10_pos(b - 1);
    }
}

proof fn lemma_pow10_eval()
    ensures
        pow10(17) == 100_000_000_000_000_000,
        pow10(18) == 1_000_000_000_000_000_000,
{
    assert(pow10(0) == 1);
    assert(pow10(1) == 10);
    assert(pow10(2) == 100);
    assert(pow10(3) == 1000);
    assert(pow10(4) == 10000);
    assert(pow10(5) == 100000);
    assert(pow10(6) == 1000000);
    assert(pow10(7) == 10000000);
    assert(pow10(8) == 100000000);
    assert(pow10(9) == 1000000000);
    assert(pow10(10) == 10000000000);
    assert(pow10(11) == 100000000000);
    assert(pow10(12) == 1000000000000);
    assert(pow10(13) == 10000000000000);
    assert(pow10(14) == 100000000000000);
    assert(pow10(15) == 1000000000000000);
    assert(pow10(16) == 10000000000000000);
    assert(pow10(17) == 100000000000000000);
    assert(pow10(18) == 1000000000000000000);
}

/// Computes a power of ten that fits in 64 bits.
fn pow10_u64(n: usize) -> (r: u64)
    requires
        n <= 18,
    ensures
        r as int == pow10(n as int),
        r <= 1_000_000_000_000_000_000,
{
    let mut scale: u64 = 1;
    let mut k: usize = 0;
    while k < n
        invariant
            k <= n <= 18,
            scale as int == pow10(k as int),
            scale <= 1_000_000_000_000_000_000,
        decreases n - k,
    {
        proof {
            lemma_pow10_mono(k as int, 17);
            lemma_pow10_eval();
        }
        scale = scale * 10;
        k = k + 1;
    }
    proof {
        lemma_pow10_mono(n as int, 18);
        lemma_pow10_eval();
    }
    scale
}

/// Multiplies a mantissa by a unit scale, exactly when the product
/// fits in 64 bits.
fn mul_unit(m: u64, un: u64) -> (r: Option<u64>)
    ensures
        r is Some <==> (m as int) * (un as int) <= u64::MAX,
        r is Some ==> r.unwrap() as int == (m as int) * (un as int),
{
    proof {
        assert((m as int) * (un as int) <= (u64::MAX as int) * (u64::MAX as int))
            by (nonlinear_arith)
            requires
                0 <= m as int <= u64::MAX as int,
                0 <= un as int <= u64::MAX as int,
        ;
    }
    let p: u128 = (m as u128) * (un as u128);
    if p > u64::MAX as u128 {
        None
    } else {
        Some(p as u64)
    }
}

/// Copies two character slices into one joined vector.
fn concat_chars(a: &[char], b: &[char]) -> (r: Vec<char>)
    ensures
        r@ == a@ + b@,
{
    let mut r: Vec<char> = Vec::new();
    let na = a.len();
    let mut i: usize = 0;
    while i < na
        invariant
            i <= na,
            na == a@.len(),
            r@ == a@.subrange(0, i as int),
        decreases na - i,
    {
        r.push(a[i]);
        proof {
            assert(r@ =~= a@.subrange(0, i + 1 as int));
        }
        i = i + 1;
    }
    proof {
        assert(a@.subrange(0, na as int) =~= a@);
    }
    let nb = b.len();
    let mut j: usize = 0;
    while j < nb
        invariant
            j <= nb,
            nb == b@.len(),
            r@ == a@ + b@.subrange(0, j as int),
        decreases nb - j,
    {
        r.push(b[j]);
        proof {
            assert(r@ =~= a@ + b@.subrange(0, j + 1 as int));
        }
        j = j + 1;
    }
    proof {
        assert(b@.subrange(0, nb as int) =~= b@);
    }
    r
}

/// The rate a trimmed, non-empty, non-zero rate text denotes, as a
/// fraction of bytes per second: a decimal number (digits with at most
/// one decimal point, at most eighteen fractional digits, scaled
/// numerator within 64 bits) times the unit scale. Texts outside that
/// grammar denote nothing.
pub open spec fn number_rate(t: Seq<char>) -> Option<(int, int)> {
    let (p, un, ud) = split_unit(t);
    let ps = split_char(p, '.');
    if ps.len() == 1 && p.len() > 0 && all_digits(p) {
        if digits_val(p) <= u64::MAX && digits_val(p) * un <= u64::MAX {
            Some((digits_val(p) * un, ud))
        } else {
            None
        }
    } else if ps.len() == 2 && all_digits(ps[0]) && all_digits(ps[1]) && (ps[0].len() > 0
        || ps[1].len() > 0) && ps[1].len() <= 18 {
        let m = digits_val(ps[0] + ps[1]);
        if m <= u64::MAX && m * un <= u64::MAX {
            Some((m * un, ud * pow10(ps[1].len() as int)))
        } else {
            None
        }
    } else {
        None
    }
}

/// The rate a raw rate text denotes: the text is trimmed; an empty or
/// plain-zero text is a zero rate; anything else goes by
/// `number_rate`.
pub open spec fn parse_rate(s: Seq<char>) -> Option<(int, int)> {
    let t = trim_spaces(s);
    if t.len() == 0 || t == seq!['0'] {
        Some((0, 1))
    } else {
        number_rate(t)
    }
}

/// Parses a rate text, exact against `parse_rate`; a returned rate
/// always has a positive denominator.
pub fn parse_rate_chars(s: &[char]) -> (r: Option<Rate>)
    ensures
        r is Some <==> parse_rate(s@) is Some,
        r is Some ==> {
            let q = parse_rate(s@).unwrap();
            r.unwrap().num as int == q.0 && r.unwrap().den as int == q.1 && q.1 >= 1
        },
{
    let t = trim_chars(s);
    if t.len() == 0 || (t.len() == 1 && t[0] == '0') {
        proof {
            if t.len() == 1 && t@[0] == '0' {
                assert(t@ =~= seq!['0']);
            }
        }
        return Some(Rate { num: 0, den: 1 });
    }
    proof {
        if trim_spaces(s@) == seq!['0'] {
            assert(t@[0] == '0');
        }
    }
    let n = t.len();
    // Strip one unit suffix.
    let (cut, un, ud): (usize, u64, u64) = if n >= 2 && t[n - 2] == 'K' && t[n - 1] == 'b' {
        (2, 1024, 8)
    } else if n >= 2 && t[n - 2] == 'M' && t[n - 1] == 'b' {
        (2, 1048576, 8)
    } else if n >= 2 && t[n - 2] == 'G' && t[n - 1] == 'b' {
        (2, 1073741824, 8)
    } else if n >= 1 && t[n - 1] == 'b' {
        (1, 1, 8)
    } else if n >= 1 && t[n - 1] == 'B' {
        (1, 1, 1)
    } else {
        (0, 1, 8)
    };
    let p = crate::text::subrange_vec(t.as_slice(), 0, n - cut);
    proof {
        assert((p@, un as int, ud as int) == split_unit(t@));
        assert(1 <= un && 1 <= ud <= 8);
    }
    let pieces = split_char_exec(p.as_slice(), '.');
    if pieces.len() == 1 {
        match parse_u64(p.as_slice()) {
            Some(m) => {
                match mul_unit(m, un) {
                    Some(num) => Some(Rate { num, den: ud }),
                    None => None,
                }
            },
            None => {
                proof {
                    if p@.len() > 0 && all_digits(p@) {
                        // The mantissa alone is already too large.
                        assert(digits_val(p@) > u64::MAX);
                    }
                }
                None
            },
        }
    } else if pieces.len() == 2 {
        let int_part = &pieces[0];
        let frac_part = &pieces[1];
        proof {
            let ps = split_char(p@, '.');
            assert(ps[0] == pieces.deep_view()[0] && ps[1] == pieces.deep_view()[1]);
            assert(pieces.deep_view()[0] == pieces@[0]@);
            assert(pieces.deep_view()[1] == pieces@[1]@);
        }
        if (int_part.len() == 0 && frac_part.len() == 0) || frac_part.len() > 18 {
            return None;
        }
        let joined = concat_chars(int_part.as_slice(), frac_part.as_slice());
        proof {
            let ps = split_char(p@, '.');
            if all_digits(joined@) {
                assert(forall|i: int|
                    0 <= i < ps[0].len() ==> #[trigger] ps[0][i] == (ps[0] + ps[1])[i]);
                assert(forall|i: int|
                    0 <= i < ps[1].len() ==> #[trigger] ps[1][i] == (ps[0] + ps[1])[ps[0].len()
                        + i]);
                assert(all_digits(ps[0]));
                assert(all_digits(ps[1]));
            }
        }
        match parse_u64(joined.as_slice()) {
            Some(m) => {
                match mul_unit(m, un) {
                    Some(num) => {
                        let scale = pow10_u64(frac_part.len());
                        proof {
                            lemma_pow10_pos(frac_part@.len() as int);
                            assert(1 <= ud as int * scale as int <= 8_000_000_000_000_000_000)
                                by (nonlinear_arith)
                                requires
                                    1 <= ud as int <= 8,
                                    1 <= scale as int <= 1_000_000_000_000_000_000,
                            ;
                        }
                        let den = ud * scale;
                        Some(Rate { num, den })
                    },
                    None => None,
                }
            },
            None => {
                proof {
                    let ps = split_char(p@, '.');
                    if all_digits(ps[0]) && all_digits(ps[1]) {
                        assert(all_digits(ps[0] + ps[1]));
                        assert((ps[0] + ps[1]).len() > 0);
                        assert(digits_val(ps[0] + ps[1]) > u64::MAX);
                    }
                }
                None
            },
        }
    } else {
        None
    }
}

/// The byte count a rate yields over a whole sampling interval:
/// `floor(num * secs / den)`, clamped at the largest 64-bit value.
pub open spec fn interval_bytes(num: int, den: int, secs: int) -> int {
    if num * secs / den > u64::MAX {
        u64::MAX as int
    } else {
        num * secs / den
    }
}

/// Computes the byte count for one sampling interval, exact against
/// `interval_bytes`.
pub fn rate_interval_bytes(r: &Rate, secs: u32) -> (b: u64)
    requires
        r.den >= 1,
    ensures
        b as int == interval_bytes(r.num as int, r.den as int, secs as int),
{
    proof {
        assert((r.num as int) * (secs as int) <= (u64::MAX as int) * (u32::MAX as int))
            by (nonlinear_arith)
            requires
                0 <= r.num as int <= u64::MAX as int,
                0 <= secs as int <= u32::MAX as int,
        ;
    }
    let prod: u128 = (r.num as u128) * (secs as u128);
    let q: u128 = prod / (r.den as u128);
    if q > u64::MAX as u128 {
        u64::MAX
    } else {
        q as u64
    }
}

} // verus!
