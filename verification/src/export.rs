use vstd::prelude::*;

verus! {

use crate::snapshot::Snapshot;
use crate::stats::TrafficStats;
use crate::stats::format_bytes_rep;
use crate::stats::format_bytes;
use crate::text::{str_eq, str_to_chars, push_char, dec_rep, u64_to_string};
use vstd::string::StringExecFns;
use vstd::string::StrSliceExecFns;

/// Geographic metadata for one remote IP; every field falls back to
/// the unknown marker when no database is loaded or the lookup fails.
pub struct GeoInfo {
    pub country: String,
    pub province: String,
    pub city: String,
    pub isp: String,
}

impl View for GeoInfo {
    type V = (Seq<char>, Seq<char>, Seq<char>, Seq<char>);

    open spec fn view(&self) -> (Seq<char>, Seq<char>, Seq<char>, Seq<char>) {
        (self.country@, self.province@, self.city@, self.isp@)
    }
}

/// What every field falls back to when a lookup fails or no database
/// is loaded.
pub open spec fn unknown_geo() -> (Seq<char>, Seq<char>, Seq<char>, Seq<char>) {
    ("Unknown"@, "Unknown"@, "Unknown"@, "Unknown"@)
}

impl GeoInfo {
    /// All four fields unknown.
    pub fn unknown() -> (r: GeoInfo)
        ensures
            r@ == unknown_geo(),
    {
        GeoInfo {
            country: String::from_str("Unknown"),
            province: String::from_str("Unknown"),
            city: String::from_str("Unknown"),
            isp: String::from_str("Unknown"),
        }
    }

    pub fn clone_geo(&self) -> (r: GeoInfo)
        ensures
            r@ == self@,
    {
        GeoInfo {
            country: String::from_str(self.country.as_str()),
            province: String::from_str(self.province.as_str()),
            city: String::from_str(self.city.as_str()),
            isp: String::from_str(self.isp.as_str()),
        }
    }
}

/// The display name to use for one geographic field: the
/// local-language name when the database has one, else the English
/// name, else the unknown marker.
pub fn pick_geo_name(local: Option<String>, english: Option<String>) -> (r: String)
    ensures
        r@ == match (local, english) {
            (Some(l), _) => l@,
            (None, Some(e)) => e@,
            (None, None) => "Unknown"@,
        },
{
    match local {
        Some(l) => l,
        None => match english {
            Some(e) => e,
            None => String::from_str("Unknown"),
        },
    }
}

/// One character of a label value, escaped for embedding between
/// double quotes in the metrics document.
pub open spec fn escape_char(c: char) -> Seq<char> {
    if c == '\\' {
        seq!['\\', '\\']
    } else if c == '"' {
        seq!['\\', '"']
    } else if c == '\n' {
        seq!['\\', 'n']
    } else {
        seq![c]
    }
}

/// A label value with backslash, double quote, and newline escaped.
pub open spec fn escape_seq(s: Seq<char>) -> Seq<char>
    decreases s.len(),
{
    if s.len() == 0 {
        Seq::empty()
    } else {
        escape_char(s[0]) + escape_seq(s.drop_first())
    }
}

/// Escapes a metrics label value, exact against `escape_seq`.
pub fn escape_label(s: &str) -> (r: String)
    ensures
        r@ == escape_seq(s@),
{
    let chars = str_to_chars(s);
    let n = chars.len();
    let mut out = String::new();
    let mut i: usize = 0;
    proof {
        assert(chars@.subrange(0, n as int) =~= chars@);
    }
    while i < n
        invariant
            n == chars@.len(),
            i <= n,
            escape_seq(chars@) == out@ + escape_seq(chars@.subrange(i as int, n as int)),
        decreases n - i,
    {
        let ghost pre = out@;
        let ghost suffix = chars@.subrange(i as int, n as int);
        let c = chars[i];
        if c == '\\' {
            push_char(&mut out, '\\');
            push_char(&mut out, '\\');
        } else if c == '"' {
            push_char(&mut out, '\\');
            push_char(&mut out, '"');
        } else if c == '\n' {
            push_char(&mut out, '\\');
            push_char(&mut out, 'n');
        } else {
            push_char(&mut out, c);
        }
        proof {
            assert(suffix[0] == chars@[i as int]);
            assert(suffix.drop_first() =~= chars@.subrange(i + 1 as int, n as int));
            assert(out@ =~= pre + escape_char(chars@[i as int]));
            assert(escape_seq(suffix) == escape_char(suffix[0]) + escape_seq(suffix.drop_first()));
        }
        i = i + 1;
    }
    proof {
        assert(escape_seq(chars@.subrange(n as int, n as int)) =~= Seq::<char>::empty());
        assert(out@ =~= escape_seq(chars@));
    }
    out
}

/// Two per-IP maps combined: every IP of either side is present, and
/// an IP on both sides carries the field-wise sum.
pub open spec fn merged(
    m: Map<Seq<char>, TrafficStats>,
    s: Map<Seq<char>, TrafficStats>,
) -> Map<Seq<char>, TrafficStats> {
    Map::new(
        |k: Seq<char>| m.contains_key(k) || s.contains_key(k),
        |k: Seq<char>|
            if s.contains_key(k) {
                TrafficStats::spec_add(
                    if m.contains_key(k) {
                        m[k]
                    } else {
                        TrafficStats::spec_zero()
                    },
                    s[k],
                )
            } else {
                m[k]
            },
    )
}

/// Merging two snapshots into cumulative totals commutes: taking in
/// snapshot `a` and then `b` leaves the same totals as `b` and then
/// `a`.
pub proof fn lemma_merge_order_irrelevant(
    m: Map<Seq<char>, TrafficStats>,
    a: Map<Seq<char>, TrafficStats>,
    b: Map<Seq<char>, TrafficStats>,
)
    ensures
        merged(merged(m, a), b) =~= merged(merged(m, b), a),
{
    assert forall|k: Seq<char>|
        merged(merged(m, a), b).contains_key(k) implies merged(merged(m, b), a).contains_key(
        k,
    ) by {}
    assert forall|k: Seq<char>|
        merged(merged(m, b), a).contains_key(k) implies merged(merged(m, a), b).contains_key(
        k,
    ) by {}
    assert forall|k: Seq<char>| #[trigger]
        merged(merged(m, a), b).contains_key(k) implies merged(merged(m, a), b)[k] == merged(
        merged(m, b),
        a,
    )[k] by {
        let z = TrafficStats::spec_zero();
        let mv = if m.contains_key(k) {
            m[k]
        } else {
            z
        };
        TrafficStats::lemma_add_zero(mv);
        if a.contains_key(k) && b.contains_key(k) {
            TrafficStats::lemma_add_assoc(mv, a[k], b[k]);
            TrafficStats::lemma_add_assoc(mv, b[k], a[k]);
            TrafficStats::lemma_add_comm(a[k], b[k]);
        }
    }
}

/// The cumulative per-IP totals together with the geographic cache and
/// the metrics renderer. It owns the totals map exclusively: the
/// sampling loop merges each cycle's snapshot in, and the export
/// endpoint renders the totals out.
pub struct Accumulator {
    totals: Snapshot,
    geo: Vec<(String, GeoInfo)>,
}

/// The geographic cache holds at most this many IPs; at capacity the
/// oldest entry leaves. The source of the lookups never evicted, which
/// grows without bound on long runs; a fixed capacity with first-in
/// first-out eviction is the explicit policy chosen here.
pub const GEO_CACHE_CAP: usize = 65536;

impl Accumulator {
    /// The cumulative totals as a map view.
    pub closed spec fn totals_map(self) -> Map<Seq<char>, TrafficStats> {
        self.totals@
    }

    /// The totals' entry order, for deterministic rendering.
    pub closed spec fn totals_keys(self) -> Seq<Seq<char>> {
        self.totals.keys()
    }

    pub closed spec fn totals_stats(self) -> Seq<TrafficStats> {
        self.totals.stats_seq()
    }

    /// The geographic cache as a map view.
    pub closed spec fn geo_map(self) -> Map<Seq<char>, (Seq<char>, Seq<char>, Seq<char>, Seq<char>)> {
        Map::new(
            |k: Seq<char>| exists|i: int| 0 <= i < self.geo@.len() && self.geo@[i].0@ == k,
            |k: Seq<char>|
                {
                    let i = choose|i: int| 0 <= i < self.geo@.len() && self.geo@[i].0@ == k;
                    self.geo@[i].1@
                },
        )
    }

    pub closed spec fn wf(self) -> bool {
        &&& self.totals.wf()
        &&& forall|i: int, j: int|
            #![trigger self.geo@[i].0, self.geo@[j].0]
            0 <= i < j < self.geo@.len() ==> self.geo@[i].0@ != self.geo@[j].0@
    }

    pub fn new() -> (r: Accumulator)
        ensures
            r.wf(),
            r.totals_map() =~= Map::<Seq<char>, TrafficStats>::empty(),
            r.totals_keys().len() == 0,
            r.geo_map() =~= Map::<Seq<char>, (Seq<char>, Seq<char>, Seq<char>, Seq<char>)>::empty(),
    {
        let r = Accumulator { totals: Snapshot::new(), geo: Vec::new() };
        proof {
            assert(r.geo_map() =~= Map::<
                Seq<char>,
                (Seq<char>, Seq<char>, Seq<char>, Seq<char>),
            >::empty());
        }
        r
    }

    /// Adds one cycle's snapshot into the cumulative totals, each IP's
    /// delta added field-wise onto its total (a new IP starts from
    /// zero).
    pub fn merge(&mut self, snap: &Snapshot)
        requires
            old(self).wf(),
            snap.wf(),
        ensures
            final(self).wf(),
            final(self).totals_map() =~= merged(old(self).totals_map(), snap@),
            final(self).geo_map() == old(self).geo_map(),
    {
        let n = snap.len();
        let mut i: usize = 0;
        proof {
            assert(merged(self.totals_map(), restrict(*snap, 0)) =~= self.totals_map());
        }
        while i < n
            invariant
                n == snap.spec_len(),
                i <= n,
                snap.wf(),
                self.totals.wf(),
                self.geo@ == old(self).geo@,
                self.totals@ =~= merged(old(self).totals_map(), restrict(*snap, i as int)),
            decreases n - i,
        {
            let ip = snap.key_at(i);
            let delta = snap.stats_at(i);
            proof {
                snap.lemma_entry_view(i as int);
            }
            let ghost before = self.totals@;
            let ip_copy = String::from_str(ip.as_str());
            self.totals.add_assign(ip_copy.as_str(), &delta);
            proof {
                let k = snap.keys()[i as int];
                let prev = restrict(*snap, i as int);
                let next = restrict(*snap, i + 1 as int);
                assert(snap.keys().subrange(0, i + 1 as int) =~= snap.keys().subrange(
                    0,
                    i as int,
                ).push(k));
                assert forall|k2: Seq<char>| #[trigger]
                    next.contains_key(k2) implies k2 == k || prev.contains_key(k2) by {
                    let j = choose|j: int|
                        0 <= j < i + 1 && (#[trigger] snap.keys().subrange(0, i + 1 as int)[j])
                            == k2;
                    if j < i {
                        assert(snap.keys().subrange(0, i as int)[j] == k2);
                    }
                }
                assert forall|k2: Seq<char>| #[trigger]
                    prev.contains_key(k2) implies next.contains_key(k2) by {
                    let j = choose|j: int|
                        0 <= j < i && (#[trigger] snap.keys().subrange(0, i as int)[j]) == k2;
                    assert(snap.keys().subrange(0, i + 1 as int)[j] == k2);
                }
                assert(!prev.contains_key(k)) by {
                    if prev.contains_key(k) {
                        let j = choose|j: int|
                            0 <= j < i && (#[trigger] snap.keys().subrange(0, i as int)[j]) == k;
                        assert(snap.keys()[j] == k);
                        assert(false);
                    }
                }
                assert(next.contains_key(k)) by {
                    assert(snap.keys().subrange(0, i + 1 as int)[i as int] == k);
                }
                assert(snap@[k] == snap.stats_seq()[i as int]);
                assert(self.totals@ =~= merged(old(self).totals_map(), next));
            }
            i = i + 1;
        }
        proof {
            snap.lemma_view_dom();
            assert(snap.keys().subrange(0, n as int) =~= snap.keys());
            assert(restrict(*snap, n as int) =~= snap@);
        }
    }
}

/// A snapshot's map restricted to its first `i` entries.
pub open spec fn restrict(s: Snapshot, i: int) -> Map<Seq<char>, TrafficStats> {
    Map::new(
        |k: Seq<char>| s.keys().subrange(0, i).contains(k),
        |k: Seq<char>| s@[k],
    )
}

/// Whether a snapshot entry saw any traffic at all; silent entries do
/// not appear in the per-cycle report.
pub open spec fn saw_traffic(st: TrafficStats) -> bool {
    st.tx_bytes > 0 || st.rx_bytes > 0
}

/// The report's order: larger combined delta (transmitted plus
/// received bytes) first, ties kept in entry order. This is a strict
/// total order on distinct entry positions, so it determines the
/// report uniquely.
pub open spec fn report_precedes(sts: Seq<TrafficStats>, i: int, j: int) -> bool {
    let ki = sts[i].tx_bytes + sts[i].rx_bytes;
    let kj = sts[j].tx_bytes + sts[j].rx_bytes;
    ki > kj || (ki == kj && i < j)
}

/// Exec comparison in the report's order.
fn report_precedes_exec(snap: &Snapshot, i: usize, j: usize) -> (r: bool)
    requires
        i < snap.spec_len(),
        j < snap.stats_seq().len(),
    ensures
        r == report_precedes(snap.stats_seq(), i as int, j as int),
{
    proof {
        snap.lemma_lens();
    }
    let si = snap.stats_at(i);
    let sj = snap.stats_at(j);
    let ki: u128 = si.tx_bytes as u128 + si.rx_bytes as u128;
    let kj: u128 = sj.tx_bytes as u128 + sj.rx_bytes as u128;
    ki > kj || (ki == kj && i < j)
}

/// The entry positions of a snapshot that saw traffic, sorted for the
/// per-cycle report: combined delta descending, ties in entry order
/// (the stable order).
pub fn sorted_report_indices(snap: &Snapshot) -> (r: Vec<usize>)
    ensures
        forall|a: int| 0 <= a < r@.len() ==> (#[trigger] r@[a] < snap.spec_len() && saw_traffic(
            snap.stats_seq()[r@[a] as int],
        )),
        forall|k: int|
            0 <= k < snap.spec_len() && saw_traffic(#[trigger] snap.stats_seq()[k]) ==> exists|
                a: int,
            | 0 <= a < r@.len() && r@[a] == k,
        forall|a: int, b: int|
            0 <= a < b < r@.len() ==> report_precedes(
                snap.stats_seq(),
                #[trigger] r@[a] as int,
                #[trigger] r@[b] as int,
            ),
{
    proof {
        snap.lemma_lens();
    }
    let n = snap.len();
    let mut rem: Vec<usize> = Vec::new();
    let mut k: usize = 0;
    while k < n
        invariant
            n == snap.spec_len(),
            n == snap.stats_seq().len(),
            k <= n,
            forall|a: int| 0 <= a < rem@.len() ==> (#[trigger] rem@[a] < k && saw_traffic(
                snap.stats_seq()[rem@[a] as int],
            )),
            forall|t: int|
                0 <= t < k && saw_traffic(#[trigger] snap.stats_seq()[t]) ==> exists|a: int|
                    0 <= a < rem@.len() && rem@[a] == t,
            forall|a: int, b: int|
                #![trigger rem@[a], rem@[b]]
                0 <= a < b < rem@.len() ==> rem@[a] < rem@[b],
        decreases n - k,
    {
        let ghost rem_pre = rem@;
        let st = snap.stats_at(k);
        if st.tx_bytes > 0 || st.rx_bytes > 0 {
            rem.push(k);
        }
        proof {
            assert forall|t: int|
                0 <= t < k + 1 && saw_traffic(#[trigger] snap.stats_seq()[t]) implies exists|
                a: int,
            | 0 <= a < rem@.len() && rem@[a] == t by {
                if t < k {
                    let a = choose|a: int| 0 <= a < rem_pre.len() && rem_pre[a] == t;
                    assert(rem@[a] == t);
                } else {
                    assert(rem@[rem@.len() - 1] == t);
                }
            }
        }
        k = k + 1;
    }
    let mut out: Vec<usize> = Vec::new();
    while rem.len() > 0
        invariant
            n == snap.spec_len(),
            n == snap.stats_seq().len(),
            forall|a: int| 0 <= a < rem@.len() ==> (#[trigger] rem@[a] < n && saw_traffic(
                snap.stats_seq()[rem@[a] as int],
            )),
            forall|a: int| 0 <= a < out@.len() ==> (#[trigger] out@[a] < n && saw_traffic(
                snap.stats_seq()[out@[a] as int],
            )),
            forall|t: int|
                0 <= t < n && saw_traffic(#[trigger] snap.stats_seq()[t]) ==> (exists|a: int|
                    0 <= a < rem@.len() && rem@[a] == t) || (exists|a: int|
                    0 <= a < out@.len() && out@[a] == t),
            forall|a: int, b: int|
                0 <= a < b < rem@.len() ==> #[trigger] rem@[a] != #[trigger] rem@[b],
            forall|a: int, b: int|
                0 <= a < b < out@.len() ==> report_precedes(
                    snap.stats_seq(),
                    #[trigger] out@[a] as int,
                    #[trigger] out@[b] as int,
                ),
            forall|a: int, b: int|
                0 <= a < out@.len() && 0 <= b < rem@.len() ==> report_precedes(
                    snap.stats_seq(),
                    #[trigger] out@[a] as int,
                    #[trigger] rem@[b] as int,
                ),
        decreases rem@.len(),
    {
        let m = rem.len();
        let mut best: usize = 0;
        let mut j: usize = 1;
        while j < m
            invariant
                m == rem@.len(),
                m >= 1,
                best < j,
                j <= m,
                n == snap.spec_len(),
                n == snap.stats_seq().len(),
                forall|a: int| 0 <= a < rem@.len() ==> (#[trigger] rem@[a] < n && saw_traffic(
                    snap.stats_seq()[rem@[a] as int],
                )),
                forall|a: int, b: int|
                    0 <= a < b < rem@.len() ==> #[trigger] rem@[a] != #[trigger] rem@[b],
                forall|t: int|
                    0 <= t < j && t != best ==> report_precedes(
                        snap.stats_seq(),
                        rem@[best as int] as int,
                        #[trigger] rem@[t] as int,
                    ),
            decreases m - j,
        {
            if report_precedes_exec(snap, rem[j], rem[best]) {
                best = j;
            }
            j = j + 1;
        }
        let chosen = rem[best];
        let ghost rem_old = rem@;
        let ghost out_old = out@;
        out.push(chosen);
        let _ = rem.remove(best);
        proof {
            assert(rem@ =~= rem_old.subrange(0, best as int) + rem_old.subrange(
                best + 1 as int,
                rem_old.len() as int,
            ));
            assert(forall|a: int| 0 <= a < best ==> #[trigger] rem@[a] == rem_old[a]);
            assert(forall|a: int|
                best <= a < rem@.len() ==> #[trigger] rem@[a] == rem_old[a + 1]);
            assert forall|t: int|
                0 <= t < n && saw_traffic(#[trigger] snap.stats_seq()[t]) implies (exists|a: int|
                0 <= a < rem@.len() && rem@[a] == t) || (exists|a: int|
                0 <= a < out@.len() && out@[a] == t) by {
                if exists|a: int| 0 <= a < rem_old.len() && rem_old[a] == t {
                    let a = choose|a: int| 0 <= a < rem_old.len() && rem_old[a] == t;
                    if a == best {
                        assert(out@[out@.len() - 1] == t);
                    } else if a < best {
                        assert(rem@[a] == t);
                    } else {
                        assert(rem@[a - 1] == t);
                    }
                } else {
                    let a = choose|a: int| 0 <= a < out_old.len() && out_old[a] == t;
                    assert(out@[a] == t);
                }
            }
        }
    }
    out
}

/// A possibly negative number in decimal.
pub open spec fn int_rep(n: int) -> Seq<char> {
    if n < 0 {
        seq!['-'] + dec_rep(-n)
    } else {
        dec_rep(n)
    }
}

/// Renders a PID for the report.
fn i32_to_string(n: i32) -> (r: String)
    ensures
        r@ == int_rep(n as int),
{
    if n < 0 {
        let m: u64 = (-(n as i64)) as u64;
        let mut s = String::new();
        push_char(&mut s, '-');
        s.append(u64_to_string(m).as_str());
        proof {
            assert(s@ =~= int_rep(n as int));
        }
        s
    } else {
        u64_to_string(n as u64)
    }
}

/// The process identity as the report shows it: PID with its name in
/// parentheses when both are known, the bare PID when only it is, and
/// a zero when the connection stayed unattributed.
pub open spec fn ident_rep(pid: Option<i32>, name: Option<Seq<char>>) -> Seq<char> {
    match (pid, name) {
        (Some(p), Some(nm)) => int_rep(p as int) + " ("@ + nm + ")"@,
        (Some(p), None) => int_rep(p as int),
        _ => "0"@,
    }
}

/// One line of the per-cycle report: the IP, its interval delta, its
/// cumulative totals, and the resolved process identity.
pub open spec fn report_line(
    ip: Seq<char>,
    delta: TrafficStats,
    total: TrafficStats,
    pid: Option<i32>,
    name: Option<Seq<char>>,
) -> Seq<char> {
    "  IP: "@ + ip + " | TX: "@ + format_bytes_rep(delta.tx_bytes as int) + " | RX: "@
        + format_bytes_rep(delta.rx_bytes as int) + " | total TX: "@ + format_bytes_rep(
        total.tx_bytes as int,
    ) + " | total RX: "@ + format_bytes_rep(total.rx_bytes as int) + " | PID: "@ + ident_rep(
        pid,
        name,
    )
}

/// Renders one report line, exact against `report_line`.
fn build_report_line(
    ip: &str,
    delta: &TrafficStats,
    total: &TrafficStats,
    ident: &(Option<i32>, Option<String>),
) -> (r: String)
    ensures
        r@ == report_line(ip@, *delta, *total, ident.0, opt_name_view(ident.1)),
{
    let mut s = String::from_str("  IP: ");
    s.append(ip);
    s.append(" | TX: ");
    s.append(format_bytes(delta.tx_bytes).as_str());
    s.append(" | RX: ");
    s.append(format_bytes(delta.rx_bytes).as_str());
    s.append(" | total TX: ");
    s.append(format_bytes(total.tx_bytes).as_str());
    s.append(" | total RX: ");
    s.append(format_bytes(total.rx_bytes).as_str());
    s.append(" | PID: ");
    match (&ident.0, &ident.1) {
        (Some(p), Some(nm)) => {
            s.append(i32_to_string(*p).as_str());
            s.append(" (");
            s.append(nm.as_str());
            s.append(")");
        },
        (Some(p), None) => {
            s.append(i32_to_string(*p).as_str());
        },
        _ => {
            s.append("0");
        },
    }
    proof {
        assert(s@ =~= report_line(ip@, *delta, *total, ident.0, opt_name_view(ident.1)));
    }
    s
}

/// The view of an optional process name.
pub open spec fn opt_name_view(o: Option<String>) -> Option<Seq<char>> {
    match o {
        Some(s) => Some(s@),
        None => None,
    }
}

/// The geographic data to use for an IP: the cached entry, or all
/// unknown when the cache has none.
pub open spec fn geo_or_unknown(
    g: Map<Seq<char>, (Seq<char>, Seq<char>, Seq<char>, Seq<char>)>,
    k: Seq<char>,
) -> (Seq<char>, Seq<char>, Seq<char>, Seq<char>) {
    if g.contains_key(k) {
        g[k]
    } else {
        unknown_geo()
    }
}

/// The opening of a transmit-series sample line.
pub open spec fn tx_prefix() -> Seq<char> {
    "ip_traffic_tx_bytes_total{remote_ip=\""@
}

/// The opening of a receive-series sample line.
pub open spec fn rx_prefix() -> Seq<char> {
    "ip_traffic_rx_bytes_total{remote_ip=\""@
}

/// The label block between the IP and the sample value.
pub open spec fn label_block(geo: (Seq<char>, Seq<char>, Seq<char>, Seq<char>)) -> Seq<char> {
    "\",country=\""@ + escape_seq(geo.0) + "\",province=\""@ + escape_seq(geo.1) + "\",city=\""@
        + escape_seq(geo.2) + "\",isp=\""@ + escape_seq(geo.3) + "\"} "@
}

/// One sample line of a series: prefix, IP, escaped geographic labels,
/// and the cumulative byte count.
pub open spec fn series_line(
    prefix: Seq<char>,
    ip: Seq<char>,
    geo: (Seq<char>, Seq<char>, Seq<char>, Seq<char>),
    v: u64,
) -> Seq<char> {
    prefix + ip + label_block(geo) + dec_rep(v as int) + seq!['\n']
}

/// The comment lines opening the transmit series.
pub open spec fn tx_header() -> Seq<char> {
    "# HELP ip_traffic_tx_bytes_total Total transmitted bytes to remote IP address (egress/upload traffic)\n# TYPE ip_traffic_tx_bytes_total counter\n"@
}

/// The comment lines opening the receive series.
pub open spec fn rx_header() -> Seq<char> {
    "\n# HELP ip_traffic_rx_bytes_total Total received bytes from remote IP address (ingress/download traffic)\n# TYPE ip_traffic_rx_bytes_total counter\n"@
}

/// Appends one sample line to the document being rendered.
fn append_series_line(out: &mut String, tx: bool, ip: &str, geo: &GeoInfo, v: u64)
    ensures
        final(out)@ == old(out)@ + series_line(
            if tx {
                tx_prefix()
            } else {
                rx_prefix()
            },
            ip@,
            geo@,
            v,
        ),
{
    if tx {
        out.append("ip_traffic_tx_bytes_total{remote_ip=\"");
    } else {
        out.append("ip_traffic_rx_bytes_total{remote_ip=\"");
    }
    out.append(ip);
    out.append("\",country=\"");
    let c = escape_label(geo.country.as_str());
    out.append(c.as_str());
    out.append("\",province=\"");
    let p = escape_label(geo.province.as_str());
    out.append(p.as_str());
    out.append("\",city=\"");
    let ci = escape_label(geo.city.as_str());
    out.append(ci.as_str());
    out.append("\",isp=\"");
    let is = escape_label(geo.isp.as_str());
    out.append(is.as_str());
    out.append("\"} ");
    let vs = u64_to_string(v);
    out.append(vs.as_str());
    push_char(out, '\n');
    proof {
        assert(out@ =~= old(out)@ + series_line(
            if tx {
                tx_prefix()
            } else {
                rx_prefix()
            },
            ip@,
            geo@,
            v,
        ));
    }
}

/// The sample lines of one series from entry `i` on: every IP whose
/// cumulative count lies strictly above the threshold contributes one
/// line, in entry order; a count equal to the threshold contributes
/// nothing.
pub open spec fn section_lines(
    prefix: Seq<char>,
    keys: Seq<Seq<char>>,
    sts: Seq<TrafficStats>,
    g: Map<Seq<char>, (Seq<char>, Seq<char>, Seq<char>, Seq<char>)>,
    thr: u64,
    i: int,
    tx: bool,
) -> Seq<char>
    decreases keys.len() - i,
{
    if i < 0 || i >= keys.len() {
        Seq::empty()
    } else {
        let v = if tx {
            sts[i].tx_bytes
        } else {
            sts[i].rx_bytes
        };
        let rest = section_lines(prefix, keys, sts, g, thr, i + 1, tx);
        if v > thr {
            series_line(prefix, keys[i], geo_or_unknown(g, keys[i]), v) + rest
        } else {
            rest
        }
    }
}

/// The threshold is a strict bound: an entry whose count equals the
/// threshold exactly adds no sample line, and an entry strictly above
/// it (by as little as one byte) adds exactly its line.
pub proof fn lemma_threshold_boundary(
    prefix: Seq<char>,
    keys: Seq<Seq<char>>,
    sts: Seq<TrafficStats>,
    g: Map<Seq<char>, (Seq<char>, Seq<char>, Seq<char>, Seq<char>)>,
    thr: u64,
    i: int,
    tx: bool,
)
    requires
        0 <= i < keys.len(),
        keys.len() == sts.len(),
    ensures
        ({
            let v = if tx {
                sts[i].tx_bytes
            } else {
                sts[i].rx_bytes
            };
            &&& (v == thr ==> section_lines(prefix, keys, sts, g, thr, i, tx) == section_lines(
                prefix,
                keys,
                sts,
                g,
                thr,
                i + 1,
                tx,
            ))
            &&& (v > thr ==> section_lines(prefix, keys, sts, g, thr, i, tx) == series_line(
                prefix,
                keys[i],
                geo_or_unknown(g, keys[i]),
                v,
            ) + section_lines(prefix, keys, sts, g, thr, i + 1, tx))
        }),
{
}

impl Accumulator {
    /// The geographic cache's keys in insertion order.
    pub closed spec fn geo_keys(self) -> Seq<Seq<char>> {
        self.geo@.map_values(|e: (String, GeoInfo)| e.0@)
    }

    /// The cache index holding an IP, if any.
    fn geo_find(&self, ip: &str) -> (r: Option<usize>)
        ensures
            match r {
                Some(i) => i < self.geo@.len() && self.geo@[i as int].0@ == ip@,
                None => !(exists|i: int| 0 <= i < self.geo@.len() && self.geo@[i].0@ == ip@),
            },
    {
        let n = self.geo.len();
        let mut i: usize = 0;
        while i < n
            invariant
                n == self.geo@.len(),
                i <= n,
                forall|j: int| 0 <= j < i ==> self.geo@[j].0@ != ip@,
            decreases n - i,
        {
            if str_eq(self.geo[i].0.as_str(), ip) {
                return Some(i);
            }
            i = i + 1;
        }
        None
    }

    /// The cached geographic data for an IP, or all unknown.
    pub fn geo_of(&self, ip: &str) -> (r: GeoInfo)
        requires
            self.wf(),
        ensures
            r@ == geo_or_unknown(self.geo_map(), ip@),
    {
        match self.geo_find(ip) {
            Some(i) => {
                proof {
                    self.lemma_geo_entry(i as int);
                }
                self.geo[i].1.clone_geo()
            },
            None => {
                proof {
                    assert(!self.geo_map().contains_key(ip@));
                }
                GeoInfo::unknown()
            },
        }
    }

    /// In a well-formed accumulator the cache key at a position
    /// determines that position.
    proof fn lemma_geo_entry(self, i: int)
        requires
            self.wf(),
            0 <= i < self.geo@.len(),
        ensures
            self.geo_map().contains_key(self.geo@[i].0@),
            self.geo_map()[self.geo@[i].0@] == self.geo@[i].1@,
    {
        let k = self.geo@[i].0@;
        assert(self.geo_map().contains_key(k));
        let j = choose|j: int| 0 <= j < self.geo@.len() && self.geo@[j].0@ == k;
        if i < j {
            assert(false);
        } else if j < i {
            assert(false);
        }
    }

    /// Replacing one cache entry in place replaces its key's mapping.
    proof fn lemma_geo_view_update(self, o: Accumulator, i: int, k: Seq<char>, v: (
        Seq<char>,
        Seq<char>,
        Seq<char>,
        Seq<char>,
    ))
        requires
            o.wf(),
            self.totals == o.totals,
            0 <= i < o.geo@.len(),
            o.geo@[i].0@ == k,
            self.geo@.len() == o.geo@.len(),
            self.geo@[i].0@ == k,
            self.geo@[i].1@ == v,
            forall|j: int| 0 <= j < o.geo@.len() && j != i ==> #[trigger] self.geo@[j]
                == o.geo@[j],
        ensures
            self.wf(),
            self.geo_map() =~= o.geo_map().insert(k, v),
    {
        assert forall|a: int, b: int|
            #![trigger self.geo@[a].0, self.geo@[b].0]
            0 <= a < b < self.geo@.len() implies self.geo@[a].0@ != self.geo@[b].0@ by {
            assert(self.geo@[a].0@ == o.geo@[a].0@ || a == i);
            assert(self.geo@[b].0@ == o.geo@[b].0@ || b == i);
        }
        assert forall|k2: Seq<char>| #[trigger]
            self.geo_map().contains_key(k2) implies o.geo_map().insert(k, v).contains_key(k2) by {
            let j = choose|j: int| 0 <= j < self.geo@.len() && self.geo@[j].0@ == k2;
            if j != i {
                assert(o.geo@[j].0@ == k2);
            }
        }
        assert forall|k2: Seq<char>| #[trigger]
            o.geo_map().insert(k, v).contains_key(k2) implies self.geo_map().contains_key(k2) by {
            if k2 == k {
                assert(self.geo@[i].0@ == k2);
            } else {
                let j = choose|j: int| 0 <= j < o.geo@.len() && o.geo@[j].0@ == k2;
                assert(j != i);
                assert(self.geo@[j].0@ == k2);
            }
        }
        assert forall|k2: Seq<char>| #[trigger]
            self.geo_map().contains_key(k2) implies self.geo_map()[k2] == o.geo_map().insert(
            k,
            v,
        )[k2] by {
            let j = choose|j: int| 0 <= j < self.geo@.len() && self.geo@[j].0@ == k2;
            self.lemma_geo_entry(j);
            if k2 == k {
                assert(j == i) by {
                    if j != i {
                        assert(o.geo@[j].0@ == k);
                        assert(false);
                    }
                }
            } else {
                assert(j != i);
                o.lemma_geo_entry(j);
            }
        }
    }

    /// Appending a fresh cache entry adds its key's mapping.
    proof fn lemma_geo_view_push(self, o: Accumulator, k: Seq<char>, v: (
        Seq<char>,
        Seq<char>,
        Seq<char>,
        Seq<char>,
    ))
        requires
            o.wf(),
            self.totals == o.totals,
            !(exists|i: int| 0 <= i < o.geo@.len() && o.geo@[i].0@ == k),
            self.geo@.len() == o.geo@.len() + 1,
            self.geo@[self.geo@.len() - 1].0@ == k,
            self.geo@[self.geo@.len() - 1].1@ == v,
            forall|j: int| 0 <= j < o.geo@.len() ==> #[trigger] self.geo@[j] == o.geo@[j],
        ensures
            self.wf(),
            self.geo_map() =~= o.geo_map().insert(k, v),
    {
        let n = o.geo@.len() as int;
        assert forall|a: int, b: int|
            #![trigger self.geo@[a].0, self.geo@[b].0]
            0 <= a < b < self.geo@.len() implies self.geo@[a].0@ != self.geo@[b].0@ by {
            if b < n {
                assert(o.geo@[a].0@ != o.geo@[b].0@);
            } else {
                assert(self.geo@[b].0@ == k);
                assert(o.geo@[a].0@ != k);
            }
        }
        assert forall|k2: Seq<char>| #[trigger]
            self.geo_map().contains_key(k2) implies o.geo_map().insert(k, v).contains_key(k2) by {
            let j = choose|j: int| 0 <= j < self.geo@.len() && self.geo@[j].0@ == k2;
            if j < n {
                assert(o.geo@[j].0@ == k2);
            }
        }
        assert forall|k2: Seq<char>| #[trigger]
            o.geo_map().insert(k, v).contains_key(k2) implies self.geo_map().contains_key(k2) by {
            if k2 == k {
                assert(self.geo@[n].0@ == k2);
            } else {
                let j = choose|j: int| 0 <= j < o.geo@.len() && o.geo@[j].0@ == k2;
                assert(self.geo@[j].0@ == k2);
            }
        }
        assert forall|k2: Seq<char>| #[trigger]
            self.geo_map().contains_key(k2) implies self.geo_map()[k2] == o.geo_map().insert(
            k,
            v,
        )[k2] by {
            let j = choose|j: int| 0 <= j < self.geo@.len() && self.geo@[j].0@ == k2;
            self.lemma_geo_entry(j);
            if k2 == k {
                assert(j == n) by {
                    if j < n {
                        assert(o.geo@[j].0@ == k);
                        assert(false);
                    }
                }
            } else {
                assert(j < n);
                o.lemma_geo_entry(j);
            }
        }
    }

    /// Evicting the oldest entry and appending a fresh one removes the
    /// oldest key's mapping and adds the new one.
    proof fn lemma_geo_view_evict_push(self, o: Accumulator, k: Seq<char>, v: (
        Seq<char>,
        Seq<char>,
        Seq<char>,
        Seq<char>,
    ))
        requires
            o.wf(),
            self.totals == o.totals,
            o.geo@.len() >= 1,
            !(exists|i: int| 0 <= i < o.geo@.len() && o.geo@[i].0@ == k),
            self.geo@.len() == o.geo@.len(),
            self.geo@[self.geo@.len() - 1].0@ == k,
            self.geo@[self.geo@.len() - 1].1@ == v,
            forall|j: int| 0 <= j < o.geo@.len() - 1 ==> #[trigger] self.geo@[j] == o.geo@[j + 1],
        ensures
            self.wf(),
            self.geo_map() =~= o.geo_map().remove(o.geo@[0].0@).insert(k, v),
    {
        let n = o.geo@.len() as int;
        assert forall|a: int, b: int|
            #![trigger self.geo@[a].0, self.geo@[b].0]
            0 <= a < b < self.geo@.len() implies self.geo@[a].0@ != self.geo@[b].0@ by {
            if b < n - 1 {
                assert(o.geo@[a + 1].0@ != o.geo@[b + 1].0@);
            } else {
                assert(self.geo@[b].0@ == k);
                assert(o.geo@[a + 1].0@ != k);
            }
        }
        assert forall|k2: Seq<char>| #[trigger]
            self.geo_map().contains_key(k2) implies o.geo_map().remove(o.geo@[0].0@).insert(
            k,
            v,
        ).contains_key(k2) by {
            let j = choose|j: int| 0 <= j < self.geo@.len() && self.geo@[j].0@ == k2;
            if j < n - 1 {
                assert(o.geo@[j + 1].0@ == k2);
                assert(o.geo@[0].0@ != o.geo@[j + 1].0@);
            }
        }
        assert forall|k2: Seq<char>| #[trigger]
            o.geo_map().remove(o.geo@[0].0@).insert(k, v).contains_key(
            k2,
        ) implies self.geo_map().contains_key(k2) by {
            if k2 == k {
                assert(self.geo@[n - 1].0@ == k2);
            } else {
                let j = choose|j: int| 0 <= j < o.geo@.len() && o.geo@[j].0@ == k2;
                assert(j >= 1) by {
                    if j == 0 {
                        assert(false);
                    }
                }
                assert(self.geo@[j - 1].0@ == k2);
            }
        }
        assert forall|k2: Seq<char>| #[trigger]
            self.geo_map().contains_key(k2) implies self.geo_map()[k2] == o.geo_map().remove(
            o.geo@[0].0@,
        ).insert(k, v)[k2] by {
            let j = choose|j: int| 0 <= j < self.geo@.len() && self.geo@[j].0@ == k2;
            self.lemma_geo_entry(j);
            if k2 == k {
                assert(j == n - 1) by {
                    if j < n - 1 {
                        assert(o.geo@[j + 1].0@ == k);
                        assert(false);
                    }
                }
            } else {
                assert(j < n - 1);
                o.lemma_geo_entry(j + 1);
            }
        }
    }

    pub fn totals_len(&self) -> (r: usize)
        ensures
            r == self.totals_keys().len(),
    {
        self.totals.len()
    }

    pub fn totals_key_at(&self, i: usize) -> (r: &String)
        requires
            i < self.totals_keys().len(),
        ensures
            r@ == self.totals_keys()[i as int],
    {
        self.totals.key_at(i)
    }

    pub fn totals_stats_at(&self, i: usize) -> (r: TrafficStats)
        requires
            i < self.totals_keys().len(),
        ensures
            r == self.totals_stats()[i as int],
    {
        self.totals.stats_at(i)
    }

    /// The cumulative counters for one IP, if any traffic was seen.
    pub fn totals_get(&self, ip: &str) -> (r: Option<TrafficStats>)
        requires
            self.wf(),
        ensures
            r is Some <==> self.totals_map().contains_key(ip@),
            r is Some ==> r.unwrap() == self.totals_map()[ip@],
    {
        self.totals.get(ip)
    }

    /// Appends one series' sample lines for every entry above the
    /// threshold.
    fn append_section(&self, out: &mut String, thr: u64, tx: bool)
        requires
            self.wf(),
        ensures
            final(out)@ == old(out)@ + section_lines(
                if tx {
                    tx_prefix()
                } else {
                    rx_prefix()
                },
                self.totals_keys(),
                self.totals_stats(),
                self.geo_map(),
                thr,
                0,
                tx,
            ),
    {
        let ghost pfx = if tx {
            tx_prefix()
        } else {
            rx_prefix()
        };
        let ghost orig = out@;
        proof {
            self.totals.lemma_lens();
        }
        let n = self.totals.len();
        let mut i: usize = 0;
        while i < n
            invariant
                n == self.totals_keys().len(),
                n == self.totals_stats().len(),
                i <= n,
                self.wf(),
                orig + section_lines(
                    pfx,
                    self.totals_keys(),
                    self.totals_stats(),
                    self.geo_map(),
                    thr,
                    0,
                    tx,
                ) == out@ + section_lines(
                    pfx,
                    self.totals_keys(),
                    self.totals_stats(),
                    self.geo_map(),
                    thr,
                    i as int,
                    tx,
                ),
                pfx == if tx {
                    tx_prefix()
                } else {
                    rx_prefix()
                },
            decreases n - i,
        {
            let st = self.totals.stats_at(i);
            let v = if tx {
                st.tx_bytes
            } else {
                st.rx_bytes
            };
            if v > thr {
                let ip = self.totals.key_at(i);
                let ip_copy = String::from_str(ip.as_str());
                let geo = self.geo_of(ip_copy.as_str());
                append_series_line(out, tx, ip_copy.as_str(), &geo, v);
            }
            i = i + 1;
        }
    }

    /// Renders the metrics document: the transmit series then the
    /// receive series, each holding one sample line per IP whose
    /// cumulative count lies strictly above the threshold, labeled
    /// with the cached geographic data (unknown where none is cached).
    pub fn get_ip_traffic_metrics(&self, threshold: u64) -> (r: Result<String, String>)
        requires
            self.wf(),
        ensures
            r is Ok,
            r.unwrap()@ == tx_header() + section_lines(
                tx_prefix(),
                self.totals_keys(),
                self.totals_stats(),
                self.geo_map(),
                threshold,
                0,
                true,
            ) + rx_header() + section_lines(
                rx_prefix(),
                self.totals_keys(),
                self.totals_stats(),
                self.geo_map(),
                threshold,
                0,
                false,
            ),
    {
        let mut out = String::from_str(
            "# HELP ip_traffic_tx_bytes_total Total transmitted bytes to remote IP address (egress/upload traffic)\n# TYPE ip_traffic_tx_bytes_total counter\n",
        );
        self.append_section(&mut out, threshold, true);
        out.append(
            "\n# HELP ip_traffic_rx_bytes_total Total received bytes from remote IP address (ingress/download traffic)\n# TYPE ip_traffic_rx_bytes_total counter\n",
        );
        self.append_section(&mut out, threshold, false);
        Ok(out)
    }

    /// The IPs a renderer at this threshold would show but whose
    /// geographic data is not cached yet, in entry order.
    pub open spec fn worklist_from(self, thr: u64, i: int) -> Seq<Seq<char>>
        decreases self.totals_keys().len() - i,
    {
        if i < 0 || i >= self.totals_keys().len() {
            Seq::empty()
        } else {
            let k = self.totals_keys()[i];
            let st = self.totals_stats()[i];
            let rest = self.worklist_from(thr, i + 1);
            if (st.tx_bytes > thr || st.rx_bytes > thr) && !self.geo_map().contains_key(k) {
                seq![k] + rest
            } else {
                rest
            }
        }
    }

    /// Lists the IPs whose sample lines the next render would emit and
    /// that still need a geographic lookup.
    pub fn ips_needing_geo(&self, threshold: u64) -> (r: Vec<String>)
        requires
            self.wf(),
        ensures
            r.deep_view() == self.worklist_from(threshold, 0),
    {
        let mut out: Vec<String> = Vec::new();
        proof {
            self.totals.lemma_lens();
        }
        let n = self.totals.len();
        let mut i: usize = 0;
        while i < n
            invariant
                n == self.totals_keys().len(),
                n == self.totals_stats().len(),
                i <= n,
                self.wf(),
                self.worklist_from(threshold, 0) =~~= out.deep_view() + self.worklist_from(
                    threshold,
                    i as int,
                ),
            decreases n - i,
        {
            let st = self.totals.stats_at(i);
            if st.tx_bytes > threshold || st.rx_bytes > threshold {
                let ip = self.totals.key_at(i);
                let ip_copy = String::from_str(ip.as_str());
                if self.geo_find(ip_copy.as_str()).is_none() {
                    let ghost prev = out.deep_view();
                    out.push(ip_copy);
                    proof {
                        assert(out.deep_view() =~~= prev + seq![
                            self.totals_keys()[i as int],
                        ]);
                    }
                }
            }
            i = i + 1;
        }
        out
    }

    /// What an IP's cumulative totals are, zero when never seen.
    pub open spec fn totals_or_zero(self, k: Seq<char>) -> TrafficStats {
        if self.totals_map().contains_key(k) {
            self.totals_map()[k]
        } else {
            TrafficStats::spec_zero()
        }
    }

    /// The per-cycle report lines for a snapshot, one per entry in the
    /// given order (normally the stable descending order of
    /// `sorted_report_indices`). Called after the snapshot was merged,
    /// the totals shown are the fresh cumulative ones.
    pub fn cycle_report(
        &self,
        snap: &Snapshot,
        idents: &Vec<(Option<i32>, Option<String>)>,
        order: &Vec<usize>,
    ) -> (r: Vec<String>)
        requires
            self.wf(),
            snap.wf(),
            idents@.len() == snap.spec_len(),
            forall|a: int| 0 <= a < order@.len() ==> #[trigger] order@[a] < snap.spec_len(),
        ensures
            r@.len() == order@.len(),
            forall|a: int|
                0 <= a < r@.len() ==> (#[trigger] r@[a])@ == report_line(
                    snap.keys()[order@[a] as int],
                    snap.stats_seq()[order@[a] as int],
                    self.totals_or_zero(snap.keys()[order@[a] as int]),
                    idents@[order@[a] as int].0,
                    opt_name_view(idents@[order@[a] as int].1),
                ),
    {
        proof {
            snap.lemma_lens();
        }
        let m = order.len();
        let mut out: Vec<String> = Vec::new();
        let mut a: usize = 0;
        while a < m
            invariant
                m == order@.len(),
                a <= m,
                self.wf(),
                snap.wf(),
                idents@.len() == snap.spec_len(),
                snap.spec_len() == snap.stats_seq().len(),
                forall|b: int| 0 <= b < order@.len() ==> #[trigger] order@[b] < snap.spec_len(),
                out@.len() == a,
                forall|b: int|
                    0 <= b < a ==> (#[trigger] out@[b])@ == report_line(
                        snap.keys()[order@[b] as int],
                        snap.stats_seq()[order@[b] as int],
                        self.totals_or_zero(snap.keys()[order@[b] as int]),
                        idents@[order@[b] as int].0,
                        opt_name_view(idents@[order@[b] as int].1),
                    ),
            decreases m - a,
        {
            let j = order[a];
            let ip = snap.key_at(j);
            let delta = snap.stats_at(j);
            let total = match self.totals.get(ip.as_str()) {
                Some(t) => t,
                None => TrafficStats::zero(),
            };
            let line = build_report_line(ip.as_str(), &delta, &total, &idents[j]);
            out.push(line);
            a = a + 1;
        }
        out
    }

    /// Caches the geographic data for an IP: a cached IP is replaced
    /// in place; a new IP is appended, evicting the oldest entry when
    /// the cache is at capacity.
    pub fn insert_geo(&mut self, ip: &str, info: GeoInfo)
        requires
            old(self).wf(),
        ensures
            final(self).wf(),
            final(self).totals_map() == old(self).totals_map(),
            final(self).totals_keys() == old(self).totals_keys(),
            final(self).totals_stats() == old(self).totals_stats(),
            old(self).geo_map().contains_key(ip@) ==> final(self).geo_map() =~= old(
                self,
            ).geo_map().insert(ip@, info@),
            !old(self).geo_map().contains_key(ip@) && old(self).geo_keys().len() < GEO_CACHE_CAP
                ==> final(self).geo_map() =~= old(self).geo_map().insert(ip@, info@),
            !old(self).geo_map().contains_key(ip@) && old(self).geo_keys().len() == GEO_CACHE_CAP
                ==> final(self).geo_map() =~= old(self).geo_map().remove(
                old(self).geo_keys()[0],
            ).insert(ip@, info@),
    {
        let ip_owned = String::from_str(ip);
        let found = self.geo_find(ip);
        match found {
            Some(i) => {
                proof {
                    self.lemma_geo_entry(i as int);
                }
                let ghost old_acc = *self;
                self.geo.set(i, (ip_owned, info));
                proof {
                    self.lemma_geo_view_update(old_acc, i as int, ip@, info@);
                }
            },
            None => {
                let ghost old_acc = *self;
                if self.geo.len() == GEO_CACHE_CAP {
                    let _ = self.geo.remove(0);
                    self.geo.push((ip_owned, info));
                    proof {
                        self.lemma_geo_view_evict_push(old_acc, ip@, info@);
                    }
                } else {
                    self.geo.push((ip_owned, info));
                    proof {
                        self.lemma_geo_view_push(old_acc, ip@, info@);
                    }
                }
            },
        }
    }
}

} // verus!
