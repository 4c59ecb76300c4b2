use vstd::prelude::*;

verus! {

use crate::text::{
    all_digits,
    all_hex_digits,
    digits_val,
    hex_digits_val,
    split_char,
    split_char_exec,
    find_sub_from,
    find_sub,
    contains_seq,
    contains_sub,
    parse_u64,
    str_to_chars,
};

/// A textual IPv4 octet as the standard address grammar admits it:
/// decimal digits, value at most 255, no leading zero.
pub open spec fn valid_octet_text(p: Seq<char>) -> bool {
    p.len() >= 1 && all_digits(p) && digits_val(p) <= 255 && (p.len() > 1 ==> p[0] != '0')
}

/// The four octet values of a dotted-quad IPv4 text, or nothing when
/// the text is not a well-formed IPv4 address.
pub open spec fn parse_ipv4(s: Seq<char>) -> Option<Seq<int>> {
    let ps = split_char(s, '.');
    if ps.len() == 4 && (forall|i: int| 0 <= i < 4 ==> valid_octet_text(#[trigger] ps[i])) {
        Some(ps.map_values(|p: Seq<char>| digits_val(p)))
    } else {
        None
    }
}

/// Parses one octet of a dotted quad.
fn parse_octet(p: &[char]) -> (r: Option<u8>)
    ensures
        r is Some <==> valid_octet_text(p@),
        r is Some ==> r.unwrap() == digits_val(p@),
{
    if p.len() == 0 {
        return None;
    }
    if p.len() > 1 && p[0] == '0' {
        return None;
    }
    match parse_u64(p) {
        Some(v) => {
            if v <= 255 {
                Some(v as u8)
            } else {
                None
            }
        },
        None => None,
    }
}

/// Parses a dotted-quad IPv4 text into its four octets, exact against
/// `parse_ipv4`.
pub fn parse_ipv4_chars(s: &[char]) -> (r: Option<(u8, u8, u8, u8)>)
    ensures
        r is Some <==> parse_ipv4(s@) is Some,
        r is Some ==> {
            let o = parse_ipv4(s@).unwrap();
            r.unwrap().0 == o[0] && r.unwrap().1 == o[1] && r.unwrap().2 == o[2] && r.unwrap().3
                == o[3]
        },
{
    let pieces = split_char_exec(s, '.');
    if pieces.len() != 4 {
        return None;
    }
    proof {
        assert(forall|i: int| 0 <= i < 4 ==> #[trigger] pieces.deep_view()[i] == pieces@[i]@);
    }
    let o0 = parse_octet(pieces[0].as_slice());
    let o1 = parse_octet(pieces[1].as_slice());
    let o2 = parse_octet(pieces[2].as_slice());
    let o3 = parse_octet(pieces[3].as_slice());
    match (o0, o1, o2, o3) {
        (Some(a), Some(b), Some(c), Some(d)) => {
            proof {
                let ps = split_char(s@, '.');
                assert(forall|i: int| 0 <= i < 4 ==> valid_octet_text(#[trigger] ps[i]));
                assert(ps.map_values(|p: Seq<char>| digits_val(p))[0] == digits_val(ps[0]));
                assert(ps.map_values(|p: Seq<char>| digits_val(p))[1] == digits_val(ps[1]));
                assert(ps.map_values(|p: Seq<char>| digits_val(p))[2] == digits_val(ps[2]));
                assert(ps.map_values(|p: Seq<char>| digits_val(p))[3] == digits_val(ps[3]));
            }
            Some((a, b, c, d))
        },
        _ => {
            proof {
                let ps = split_char(s@, '.');
                if o0 is None {
                    assert(!valid_octet_text(ps[0]));
                } else if o1 is None {
                    assert(!valid_octet_text(ps[1]));
                } else if o2 is None {
                    assert(!valid_octet_text(ps[2]));
                } else {
                    assert(!valid_octet_text(ps[3]));
                }
            }
            None
        },
    }
}

/// A textual IPv6 group: one to four hexadecimal digits.
pub open spec fn valid_h16_text(p: Seq<char>) -> bool {
    1 <= p.len() <= 4 && all_hex_digits(p)
}

/// A hexadecimal string of at most four digits fits in sixteen bits.
pub proof fn lemma_h16_bound(s: Seq<char>)
    requires
        all_hex_digits(s),
        s.len() <= 4,
    ensures
        0 <= hex_digits_val(s) <= 0xFFFF,
        s.len() <= 3 ==> hex_digits_val(s) <= 0xFFF,
        s.len() <= 2 ==> hex_digits_val(s) <= 0xFF,
        s.len() <= 1 ==> hex_digits_val(s) <= 0xF,
    decreases s.len(),
{
    if s.len() > 0 {
        lemma_h16_bound(s.drop_last());
    }
}

/// Parses one IPv6 group.
fn parse_h16(p: &[char]) -> (r: Option<u16>)
    ensures
        r is Some <==> valid_h16_text(p@),
        r is Some ==> r.unwrap() == hex_digits_val(p@),
{
    let n = p.len();
    if n == 0 || n > 4 {
        return None;
    }
    let mut acc: u32 = 0;
    let mut i: usize = 0;
    while i < n
        invariant
            n == p@.len(),
            n <= 4,
            i <= n,
            forall|k: int| 0 <= k < i ==> crate::text::is_hex_digit(p@[k]),
            acc == hex_digits_val(p@.subrange(0, i as int)),
            acc <= 0xFFFF,
        decreases n - i,
    {
        let c = p[i];
        if !crate::text::is_hex_digit_char(c) {
            return None;
        }
        let d = crate::text::hex_digit_value(c);
        proof {
            let pre = p@.subrange(0, i + 1 as int);
            assert(pre.drop_last() =~= p@.subrange(0, i as int));
            lemma_h16_bound(p@.subrange(0, i as int));
        }
        acc = acc * 16 + d;
        proof {
            lemma_h16_bound(p@.subrange(0, i + 1 as int));
        }
        i = i + 1;
    }
    proof {
        assert(p@.subrange(0, n as int) =~= p@);
    }
    Some(acc as u16)
}

/// The group values of a piece list when every piece is a valid group.
pub open spec fn h16_vals(pieces: Seq<Seq<char>>) -> Seq<int> {
    pieces.map_values(|p: Seq<char>| hex_digits_val(p))
}

pub open spec fn all_h16(pieces: Seq<Seq<char>>) -> bool {
    forall|i: int| 0 <= i < pieces.len() ==> valid_h16_text(#[trigger] pieces[i])
}

/// The pieces of one side of an elision, as group units: all groups,
/// or (on the trailing side) groups followed by one embedded IPv4
/// address that stands for two groups.
pub open spec fn tail_units(pieces: Seq<Seq<char>>) -> Option<Seq<int>> {
    if all_h16(pieces) {
        Some(h16_vals(pieces))
    } else if pieces.len() >= 1 && all_h16(pieces.drop_last()) && parse_ipv4(
        pieces.last(),
    ) is Some {
        let o = parse_ipv4(pieces.last()).unwrap();
        Some(h16_vals(pieces.drop_last()) + seq![o[0] * 256 + o[1], o[2] * 256 + o[3]])
    } else {
        None
    }
}

/// Splits a (possibly empty) colon-separated side into its pieces.
pub open spec fn side_pieces(s: Seq<char>) -> Seq<Seq<char>> {
    if s.len() == 0 {
        Seq::empty()
    } else {
        split_char(s, ':')
    }
}

/// The eight group values of an IPv6 text, or nothing when the text is
/// not a well-formed IPv6 address. The grammar is the standard textual
/// form: eight colon-separated groups, or a single `::` elision
/// standing for the missing zero groups, with an optional embedded
/// IPv4 dotted quad as the last two groups.
pub open spec fn parse_ipv6(s: Seq<char>) -> Option<Seq<int>> {
    match find_sub_from(s, seq![':', ':'], 0) {
        None => {
            let ps = split_char(s, ':');
            match tail_units(ps) {
                Some(units) => if units.len() == 8 && ps.len() >= 7 {
                    Some(units)
                } else {
                    None
                },
                None => None,
            }
        },
        Some(k) => {
            let left = s.subrange(0, k);
            let right = s.subrange(k + 2, s.len() as int);
            if contains_seq(right, seq![':', ':']) {
                None
            } else {
                let lp = side_pieces(left);
                let rp = side_pieces(right);
                if all_h16(lp) {
                    match tail_units(rp) {
                        Some(runits) => if h16_vals(lp).len() + runits.len() <= 7 {
                            Some(
                                h16_vals(lp) + Seq::new(
                                    (8 - lp.len() - runits.len()) as nat,
                                    |i: int| 0,
                                ) + runits,
                            )
                        } else {
                            None
                        },
                        None => None,
                    }
                } else {
                    None
                }
            }
        },
    }
}

/// Parses the pieces of one side into group units, exact against
/// `tail_units`.
fn parse_tail_units(pieces: &Vec<Vec<char>>) -> (r: Option<Vec<u16>>)
    ensures
        r is Some <==> tail_units(pieces.deep_view()) is Some,
        r is Some ==> {
            let u = tail_units(pieces.deep_view()).unwrap();
            let v = r.unwrap()@;
            v.len() == u.len() && forall|i: int| 0 <= i < v.len() ==> v[i] as int == u[i]
        },
{
    let n = pieces.len();
    let mut vals: Vec<u16> = Vec::new();
    let mut i: usize = 0;
    proof {
        assert(forall|j: int|
            0 <= j < pieces@.len() ==> #[trigger] pieces.deep_view()[j] == pieces@[j]@);
    }
    while i < n
        invariant
            n == pieces@.len(),
            i <= n,
            forall|j: int|
                0 <= j < pieces@.len() ==> #[trigger] pieces.deep_view()[j] == pieces@[j]@,
            forall|j: int| 0 <= j < i ==> valid_h16_text(#[trigger] pieces.deep_view()[j]),
            vals@.len() == i,
            forall|j: int|
                0 <= j < i ==> #[trigger] vals@[j] as int == hex_digits_val(pieces.deep_view()[j]),
        decreases n - i,
    {
        match parse_h16(pieces[i].as_slice()) {
            Some(v) => {
                vals.push(v);
                i = i + 1;
            },
            None => {
                // The remaining acceptable shape: this piece is the
                // last one and holds an embedded IPv4 address.
                if i + 1 != n {
                    proof {
                        let dv = pieces.deep_view();
                        assert(!valid_h16_text(dv[i as int]));
                        assert(!all_h16(dv));
                        if n >= 1 && all_h16(dv.drop_last()) {
                            assert(dv.drop_last()[i as int] == dv[i as int]);
                            assert(false);
                        }
                    }
                    return None;
                }
                match parse_ipv4_chars(pieces[i].as_slice()) {
                    Some((a, b, c, d)) => {
                        let hi: u16 = (a as u16) * 256 + (b as u16);
                        let lo: u16 = (c as u16) * 256 + (d as u16);
                        vals.push(hi);
                        vals.push(lo);
                        proof {
                            let dv = pieces.deep_view();
                            assert(!valid_h16_text(dv[i as int]));
                            assert(!all_h16(dv));
                            assert(dv.drop_last().len() == i);
                            assert(forall|j: int|
                                0 <= j < i ==> #[trigger] dv.drop_last()[j] == dv[j]);
                            assert(all_h16(dv.drop_last()));
                            assert(dv.last() == dv[i as int]);
                            let u = tail_units(dv).unwrap();
                            let o = parse_ipv4(dv.last()).unwrap();
                            assert(h16_vals(dv.drop_last()).len() == i);
                            assert(forall|j: int|
                                0 <= j < i ==> #[trigger] h16_vals(dv.drop_last())[j]
                                    == hex_digits_val(dv.drop_last()[j]));
                            assert(forall|j: int|
                                0 <= j < vals@.len() ==> #[trigger] vals@[j] as int == u[j]);
                        }
                        return Some(vals);
                    },
                    None => {
                        proof {
                            let dv = pieces.deep_view();
                            assert(!valid_h16_text(dv[i as int]));
                            assert(!all_h16(dv));
                            if n >= 1 && all_h16(dv.drop_last()) && parse_ipv4(
                                dv.last(),
                            ) is Some {
                                assert(dv.last() == dv[i as int]);
                                assert(false);
                            }
                        }
                        return None;
                    },
                }
            },
        }
    }
    proof {
        let dv = pieces.deep_view();
        assert(all_h16(dv));
        assert(forall|j: int|
            0 <= j < dv.len() ==> #[trigger] h16_vals(dv)[j] == hex_digits_val(dv[j]));
    }
    Some(vals)
}

/// Parses an IPv6 text into its eight group values, exact against
/// `parse_ipv6`.
pub fn parse_ipv6_chars(s: &[char]) -> (r: Option<Vec<u16>>)
    ensures
        r is Some <==> parse_ipv6(s@) is Some,
        r is Some ==> {
            let g = parse_ipv6(s@).unwrap();
            let v = r.unwrap()@;
            g.len() == 8 && v.len() == 8 && forall|i: int| 0 <= i < 8 ==> v[i] as int == g[i]
        },
{
    let pat: Vec<char> = vec![':', ':'];
    proof {
        assert(pat@ =~= seq![':', ':']);
    }
    match find_sub(s, pat.as_slice(), 0) {
        None => {
            let pieces = split_char_exec(s, ':');
            let np = pieces.len();
            match parse_tail_units(&pieces) {
                Some(vals) => {
                    if vals.len() == 8 && np >= 7 {
                        Some(vals)
                    } else {
                        None
                    }
                },
                None => None,
            }
        },
        Some(k) => {
            let n = s.len();
            proof {
                crate::text::lemma_find_sub_from(s@, pat@, 0);
            }
            let left = crate::text::subrange_vec(s, 0, k);
            let right = crate::text::subrange_vec(s, k + 2, n);
            if contains_sub(right.as_slice(), pat.as_slice()) {
                return None;
            }
            let lp: Vec<Vec<char>> = if left.len() == 0 {
                Vec::new()
            } else {
                split_char_exec(left.as_slice(), ':')
            };
            let rp: Vec<Vec<char>> = if right.len() == 0 {
                Vec::new()
            } else {
                split_char_exec(right.as_slice(), ':')
            };
            proof {
                assert(lp.deep_view() =~~= side_pieces(s@.subrange(0, k as int)));
                assert(rp.deep_view() =~~= side_pieces(s@.subrange(k + 2, s@.len() as int)));
            }
            let lvals = match parse_tail_units(&lp) {
                Some(v) => v,
                None => {
                    proof {
                        if all_h16(lp.deep_view()) {
                            assert(tail_units(lp.deep_view()) is Some);
                        }
                    }
                    return None;
                },
            };
            // The leading side may not hold an embedded IPv4 address.
            if lvals.len() != lp.len() {
                proof {
                    let dv = lp.deep_view();
                    if all_h16(dv) {
                        assert(tail_units(dv).unwrap() == h16_vals(dv));
                        assert(false);
                    }
                }
                return None;
            }
            proof {
                let dv = lp.deep_view();
                if !all_h16(dv) {
                    assert(tail_units(dv).unwrap().len() == dv.len() + 1);
                    assert(false);
                }
            }
            let rvals = match parse_tail_units(&rp) {
                Some(v) => v,
                None => {
                    return None;
                },
            };
            let nl = lvals.len();
            let nr = rvals.len();
            if nl > 7 || nr > 7 - nl {
                return None;
            }
            let mut out: Vec<u16> = Vec::new();
            let mut i: usize = 0;
            while i < nl
                invariant
                    i <= nl,
                    nl == lvals@.len(),
                    out@.len() == i,
                    forall|j: int| 0 <= j < i ==> out@[j] == lvals@[j],
                decreases nl - i,
            {
                out.push(lvals[i]);
                i = i + 1;
            }
            let nz = 8 - nl - nr;
            let mut z: usize = 0;
            while z < nz
                invariant
                    z <= nz,
                    nl == lvals@.len(),
                    out@.len() == nl + z,
                    forall|j: int| 0 <= j < nl ==> out@[j] == lvals@[j],
                    forall|j: int| nl <= j < nl + z ==> out@[j] == 0u16,
                decreases nz - z,
            {
                out.push(0u16);
                z = z + 1;
            }
            let mut t: usize = 0;
            while t < nr
                invariant
                    t <= nr,
                    nl == lvals@.len(),
                    nr == rvals@.len(),
                    nl + nr <= 7,
                    nz == 8 - nl - nr,
                    out@.len() == nl + nz + t,
                    forall|j: int| 0 <= j < nl ==> out@[j] == lvals@[j],
                    forall|j: int| nl <= j < nl + nz ==> out@[j] == 0u16,
                    forall|j: int| 0 <= j < t ==> out@[nl + nz + j] == rvals@[j],
                decreases nr - t,
            {
                out.push(rvals[t]);
                t = t + 1;
            }
            proof {
                let g = parse_ipv6(s@).unwrap();
                let lu = tail_units(lp.deep_view()).unwrap();
                let ru = tail_units(rp.deep_view()).unwrap();
                assert(g.len() == 8);
                assert(out@.len() == 8);
                assert(forall|j: int| 0 <= j < 8 ==> out@[j] as int == g[j]);
            }
            Some(out)
        },
    }
}

/// Whether four IPv4 octet values fall outside every excluded range:
/// current-network, private, loopback, link-local, multicast,
/// reserved, and broadcast addresses are not public.
pub open spec fn ipv4_public(o: Seq<int>) -> bool {
    &&& o[0] != 0
    &&& o[0] != 10
    &&& o[0] != 127
    &&& !(o[0] == 172 && 16 <= o[1] <= 31)
    &&& !(o[0] == 192 && o[1] == 168)
    &&& !(o[0] == 169 && o[1] == 254)
    &&& !(224 <= o[0] <= 239)
    &&& !(o[0] >= 240)
    &&& !(o[0] == 255 && o[1] == 255 && o[2] == 255 && o[3] == 255)
}

/// Whether eight IPv6 group values fall outside every excluded range:
/// loopback, unspecified, multicast, link-local, and unique-local
/// addresses are not public.
pub open spec fn ipv6_public(g: Seq<int>) -> bool {
    let unspecified = forall|i: int| 0 <= i < 8 ==> g[i] == 0;
    let loopback = (forall|i: int| 0 <= i < 7 ==> g[i] == 0) && g[7] == 1;
    &&& !loopback
    &&& !unspecified
    &&& !(0xFF00 <= g[0] <= 0xFFFF)
    &&& !(0xFE80 <= g[0] <= 0xFEBF)
    &&& !(0xFC00 <= g[0] <= 0xFDFF)
}

/// Whether the text is a public IP address: it parses as IPv4 or IPv6
/// and lies outside the excluded ranges; unparsable text is not
/// public.
pub open spec fn is_public_ip(s: Seq<char>) -> bool {
    if parse_ipv4(s) is Some {
        ipv4_public(parse_ipv4(s).unwrap())
    } else if parse_ipv6(s) is Some {
        ipv6_public(parse_ipv6(s).unwrap())
    } else {
        false
    }
}

/// Classifies an address text, exact against `is_public_ip`.
pub fn is_public_chars(s: &[char]) -> (r: bool)
    ensures
        r == is_public_ip(s@),
{
    match parse_ipv4_chars(s) {
        Some((a, b, c, d)) => {
            let pub4 = !(a == 0 || a == 10 || a == 127 || (a == 172 && 16 <= b && b <= 31) || (a
                == 192 && b == 168) || (a == 169 && b == 254) || (224 <= a && a <= 239) || a >= 240
                || (a == 255 && b == 255 && c == 255 && d == 255));
            pub4
        },
        None => {
            match parse_ipv6_chars(s) {
                Some(g) => {
                    let g0 = g[0];
                    let mut all_zero7 = true;
                    let mut i: usize = 0;
                    while i < 7
                        invariant
                            g@.len() == 8,
                            i <= 7,
                            all_zero7 == (forall|j: int| 0 <= j < i ==> g@[j] == 0u16),
                        decreases 7 - i,
                    {
                        if g[i] != 0 {
                            all_zero7 = false;
                        }
                        i = i + 1;
                    }
                    let unspecified = all_zero7 && g[7] == 0;
                    let loopback = all_zero7 && g[7] == 1;
                    let pub6 = !(loopback || unspecified || (0xFF00 <= g0) || (0xFE80 <= g0 && g0
                        <= 0xFEBF) || (0xFC00 <= g0 && g0 <= 0xFDFF));
                    proof {
                        let gs = parse_ipv6(s@).unwrap();
                        assert(forall|j: int| 0 <= j < 8 ==> g@[j] as int == gs[j]);
                        assert((forall|j: int| 0 <= j < 7 ==> g@[j] == 0u16) == (forall|j: int|
                            0 <= j < 7 ==> gs[j] == 0));
                        assert((g@[7] == 0u16) == (gs[7] == 0));
                    }
                    pub6
                },
                None => false,
            }
        },
    }
}

/// Classifies an address text given as a string slice.
pub fn is_public(ip: &str) -> (r: bool)
    ensures
        r == is_public_ip(ip@),
{
    let chars = str_to_chars(ip);
    is_public_chars(chars.as_slice())
}

} // verus!
