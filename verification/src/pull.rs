use vstd::prelude::*;

verus! {

use crate::snapshot::Snapshot;
use crate::stats::TrafficStats;
use crate::ip::parse_ipv4;
use crate::ip::parse_ipv4_chars;
use crate::rate::{parse_rate, parse_rate_chars, interval_bytes, rate_interval_bytes, Rate};
use crate::text::{
    tokens,
    tokenize,
    trim_spaces,
    trim_chars,
    contains_seq,
    contains_sub,
    find_sub_from,
    find_sub,
    split_char,
    split_char_exec,
    subrange_vec,
    chars_to_string,
    str_to_chars,
};

/// The outbound marker of the rate tool's paired-record output.
pub open spec fn arrow_out() -> Seq<char> {
    seq!['=', '>']
}

/// The inbound marker on the second line of a paired record.
pub open spec fn arrow_in() -> Seq<char> {
    seq!['<', '=']
}

/// Splits around the single occurrence of a two-character marker;
/// nothing when the marker occurs zero or more than one time.
pub open spec fn split2(s: Seq<char>, pat: Seq<char>) -> Option<(Seq<char>, Seq<char>)> {
    match find_sub_from(s, pat, 0) {
        Some(k) => if find_sub_from(s, pat, k + pat.len()) is Some {
            None
        } else {
            Some((s.subrange(0, k), s.subrange(k + pat.len(), s.len() as int)))
        },
        None => None,
    }
}

/// Exec split around a single marker occurrence, exact against
/// `split2`.
fn split2_exec(s: &[char], pat: &[char]) -> (r: Option<(Vec<char>, Vec<char>)>)
    ensures
        r is Some <==> split2(s@, pat@) is Some,
        r is Some ==> {
            let q = split2(s@, pat@).unwrap();
            r.unwrap().0@ == q.0 && r.unwrap().1@ == q.1
        },
{
    let n = s.len();
    match find_sub(s, pat, 0) {
        Some(k) => {
            proof {
                crate::text::lemma_find_sub_from(s@, pat@, 0);
            }
            match find_sub(s, pat, k + pat.len()) {
                Some(_) => None,
                None => {
                    let a = subrange_vec(s, 0, k);
                    let b = subrange_vec(s, k + pat.len(), s.len());
                    Some((a, b))
                },
            }
        },
        None => None,
    }
}

/// The record one line (and its successor) of the rate tool's output
/// denotes, when the line holds the outbound marker and the local
/// address: the first token right of the marker is the outbound rate;
/// the following line must hold the inbound marker, the remote address
/// as the last token on its left, and the inbound rate as the first
/// token on its right (an unparsable inbound rate counts as zero). The
/// record carries the per-interval byte counts; this tool reports no
/// packet counts. Lines not of that shape, and records whose remote
/// token is not an IPv4 address, denote nothing.
pub open spec fn line_record(
    lines: Seq<Seq<char>>,
    local: Seq<char>,
    secs: int,
    i: int,
) -> Option<(Seq<char>, TrafficStats)> {
    let line = trim_spaces(lines[i]);
    if contains_seq(line, arrow_out()) && contains_seq(line, local) {
        match split2(line, arrow_out()) {
            None => None,
            Some(parts) => {
                let right = trim_spaces(parts.1);
                let rtoks = tokens(right);
                if rtoks.len() >= 4 {
                    match parse_rate(rtoks[0]) {
                        None => None,
                        Some(tx) => if i + 1 < lines.len() {
                            let next = trim_spaces(lines[i + 1]);
                            if contains_seq(next, arrow_in()) {
                                match split2(next, arrow_in()) {
                                    None => None,
                                    Some(nparts) => {
                                        let lpart = trim_spaces(nparts.0);
                                        let rpart = trim_spaces(nparts.1);
                                        let ltoks = tokens(lpart);
                                        if ltoks.len() >= 1 {
                                            let remote = ltoks.last();
                                            if parse_ipv4(remote) is Some {
                                                let rtoks2 = tokens(rpart);
                                                let rx = if rtoks2.len() >= 1 {
                                                    match parse_rate(rtoks2[0]) {
                                                        Some(q) => q,
                                                        None => (0, 1),
                                                    }
                                                } else {
                                                    (0, 1)
                                                };
                                                Some(
                                                    (
                                                        remote,
                                                        TrafficStats {
                                                            tx_bytes: interval_bytes(
                                                                tx.0,
                                                                tx.1,
                                                                secs,
                                                            ) as u64,
                                                            rx_bytes: interval_bytes(
                                                                rx.0,
                                                                rx.1,
                                                                secs,
                                                            ) as u64,
                                                            tx_packets: 0,
                                                            rx_packets: 0,
                                                        },
                                                    ),
                                                )
                                            } else {
                                                None
                                            }
                                        } else {
                                            None
                                        }
                                    },
                                }
                            } else {
                                None
                            }
                        } else {
                            None
                        },
                    }
                } else {
                    None
                }
            },
        }
    } else {
        None
    }
}

/// The per-IP byte map the whole output denotes: every record from
/// line `i` on folded into `acc`, a later record for an IP replacing
/// an earlier one.
pub open spec fn pull_map_from(
    lines: Seq<Seq<char>>,
    local: Seq<char>,
    secs: int,
    i: int,
    acc: Map<Seq<char>, TrafficStats>,
) -> Map<Seq<char>, TrafficStats>
    decreases lines.len() - i,
{
    if i < 0 || i >= lines.len() {
        acc
    } else {
        match line_record(lines, local, secs, i) {
            Some(kv) => pull_map_from(lines, local, secs, i + 1, acc.insert(kv.0, kv.1)),
            None => pull_map_from(lines, local, secs, i + 1, acc),
        }
    }
}

/// Exec record extraction for one line, exact against `line_record`.
fn line_record_exec(lines: &Vec<Vec<char>>, local: &[char], secs: u32, i: usize) -> (r: Option<
    (String, TrafficStats),
>)
    requires
        i < lines@.len(),
    ensures
        r is Some <==> line_record(lines.deep_view(), local@, secs as int, i as int) is Some,
        r is Some ==> {
            let q = line_record(lines.deep_view(), local@, secs as int, i as int).unwrap();
            r.unwrap().0@ == q.0 && r.unwrap().1 == q.1
        },
{
    proof {
        assert(forall|j: int|
            0 <= j < lines@.len() ==> #[trigger] lines.deep_view()[j] == lines@[j]@);
    }
    let line = trim_chars(lines[i].as_slice());
    let out_pat: Vec<char> = vec!['=', '>'];
    let in_pat: Vec<char> = vec!['<', '='];
    proof {
        assert(out_pat@ =~= arrow_out());
        assert(in_pat@ =~= arrow_in());
    }
    if !contains_sub(line.as_slice(), out_pat.as_slice()) {
        return None;
    }
    if !contains_sub(line.as_slice(), local) {
        return None;
    }
    let parts = match split2_exec(line.as_slice(), out_pat.as_slice()) {
        Some(p) => p,
        None => {
            return None;
        },
    };
    let right = trim_chars(parts.1.as_slice());
    let rtoks = tokenize(right.as_slice());
    if rtoks.len() < 4 {
        return None;
    }
    proof {
        assert(rtoks.deep_view()[0] == rtoks@[0]@);
    }
    let tx = match parse_rate_chars(rtoks[0].as_slice()) {
        Some(q) => q,
        None => {
            return None;
        },
    };
    let nl = lines.len();
    if i + 1 >= nl {
        return None;
    }
    let next = trim_chars(lines[i + 1].as_slice());
    if !contains_sub(next.as_slice(), in_pat.as_slice()) {
        return None;
    }
    let nparts = match split2_exec(next.as_slice(), in_pat.as_slice()) {
        Some(p) => p,
        None => {
            return None;
        },
    };
    let lpart = trim_chars(nparts.0.as_slice());
    let rpart = trim_chars(nparts.1.as_slice());
    let ltoks = tokenize(lpart.as_slice());
    if ltoks.len() == 0 {
        return None;
    }
    let remote = &ltoks[ltoks.len() - 1];
    proof {
        assert(ltoks.deep_view()[ltoks@.len() - 1] == ltoks@[ltoks@.len() - 1]@);
        assert(tokens(lpart@).last() == remote@);
    }
    if parse_ipv4_chars(remote.as_slice()).is_none() {
        return None;
    }
    let rtoks2 = tokenize(rpart.as_slice());
    let rx: Rate = if rtoks2.len() >= 1 {
        proof {
            assert(rtoks2.deep_view()[0] == rtoks2@[0]@);
        }
        match parse_rate_chars(rtoks2[0].as_slice()) {
            Some(q) => q,
            None => Rate { num: 0, den: 1 },
        }
    } else {
        Rate { num: 0, den: 1 }
    };
    let tx_bytes = rate_interval_bytes(&tx, secs);
    let rx_bytes = rate_interval_bytes(&rx, secs);
    Some(
        (
            chars_to_string(remote.as_slice()),
            TrafficStats { tx_bytes, rx_bytes, tx_packets: 0, rx_packets: 0 },
        ),
    )
}

/// The batch-model backend around the external rate tool: each capture
/// spawns the tool for one interval and parses its complete output.
/// The subprocess itself runs outside the library; this type holds the
/// configuration and the parsing.
pub struct IftopMonitor {
    pub interface: String,
    pub sample_interval: u32,
    pub local_ip: Option<String>,
}

/// What one line of the address tool's output yields as the local
/// address: a line whose trimmed form starts with the inet prefix and
/// that does not hold the loopback address gives its second token up
/// to any slash.
pub open spec fn local_ip_of_line(l: Seq<char>) -> Option<Seq<char>> {
    let t = trim_spaces(l);
    if t.len() >= 5 && t.subrange(0, 5) == "inet "@ && !contains_seq(l, "127.0.0.1"@) {
        let toks = tokens(t);
        if toks.len() >= 2 {
            Some(split_char(toks[1], '/')[0])
        } else {
            None
        }
    } else {
        None
    }
}

/// The local address the whole address-tool output yields: the first
/// line that yields one.
pub open spec fn first_local_ip(ls: Seq<Seq<char>>, i: int) -> Option<Seq<char>>
    decreases ls.len() - i,
{
    if i < 0 || i >= ls.len() {
        None
    } else {
        match local_ip_of_line(ls[i]) {
            Some(ip) => Some(ip),
            None => first_local_ip(ls, i + 1),
        }
    }
}

/// Extracts the interface's local address from the address tool's
/// output, exact against `first_local_ip` over the output's lines.
pub fn parse_local_ip(output: &str) -> (r: Option<String>)
    ensures
        r is Some <==> first_local_ip(split_char(output@, '\n'), 0) is Some,
        r is Some ==> Some(r.unwrap()@) == first_local_ip(split_char(output@, '\n'), 0),
{
    let chars = str_to_chars(output);
    let ls = split_char_exec(chars.as_slice(), '\n');
    let n = ls.len();
    proof {
        assert(forall|j: int| 0 <= j < ls@.len() ==> #[trigger] ls.deep_view()[j] == ls@[j]@);
    }
    let mut i: usize = 0;
    while i < n
        invariant
            n == ls@.len(),
            i <= n,
            ls.deep_view() == split_char(output@, '\n'),
            forall|j: int| 0 <= j < ls@.len() ==> #[trigger] ls.deep_view()[j] == ls@[j]@,
            first_local_ip(ls.deep_view(), 0) == first_local_ip(ls.deep_view(), i as int),
        decreases n - i,
    {
        let t = trim_chars(ls[i].as_slice());
        if t.len() >= 5 {
            let prefix = subrange_vec(t.as_slice(), 0, 5);
            if crate::text::chars_eq_str(prefix.as_slice(), "inet ") {
                let lo = str_to_chars("127.0.0.1");
                if !contains_sub(ls[i].as_slice(), lo.as_slice()) {
                    let toks = tokenize(t.as_slice());
                    if toks.len() >= 2 {
                        proof {
                            assert(toks.deep_view()[1] == toks@[1]@);
                        }
                        let pieces = split_char_exec(toks[1].as_slice(), '/');
                        proof {
                            assert(split_char(toks@[1]@, '/').len() >= 1);
                            assert(pieces.deep_view()[0] == pieces@[0]@);
                        }
                        let ip = chars_to_string(pieces[0].as_slice());
                        return Some(ip);
                    }
                }
            }
        }
        proof {
            assert(local_ip_of_line(ls.deep_view()[i as int]) is None);
        }
        i = i + 1;
    }
    None
}

impl IftopMonitor {
    /// A batch backend for one interface and sampling interval; the
    /// local address is found later, at initialization.
    pub fn new(interface: String, sample_interval: u32) -> (r: IftopMonitor)
        ensures
            r.interface == interface,
            r.sample_interval == sample_interval,
            r.local_ip is None,
    {
        IftopMonitor { interface, sample_interval, local_ip: None }
    }

    /// Stores the interface's local address, as initialization does
    /// once the address tool has answered.
    pub fn set_local_ip(&mut self, ip: String)
        ensures
            final(self).interface == old(self).interface,
            final(self).sample_interval == old(self).sample_interval,
            final(self).local_ip == Some(ip),
    {
        self.local_ip = Some(ip);
    }

    /// The backend's display name.
    pub fn name(&self) -> (r: &'static str)
        ensures
            r@ == "iftop"@,
    {
        "iftop"
    }

    /// Parses one complete capture output into the per-IP snapshot it
    /// denotes, exact against `pull_map_from` over the output's lines;
    /// with no local address stored the snapshot is empty.
    pub fn parse_iftop_output(&self, output: &str) -> (r: Snapshot)
        ensures
            r.wf(),
            match self.local_ip {
                Some(lip) => r@ == pull_map_from(
                    split_char(output@, '\n'),
                    lip@,
                    self.sample_interval as int,
                    0,
                    Map::empty(),
                ),
                None => r@ == Map::<Seq<char>, TrafficStats>::empty(),
            },
    {
        let mut snap = Snapshot::new();
        let local = match &self.local_ip {
            Some(ip) => ip,
            None => {
                return snap;
            },
        };
        let local_chars = str_to_chars(local.as_str());
        let chars = str_to_chars(output);
        let ls = split_char_exec(chars.as_slice(), '\n');
        let n = ls.len();
        let secs = self.sample_interval;
        let mut i: usize = 0;
        while i < n
            invariant
                n == ls@.len(),
                i <= n,
                snap.wf(),
                ls.deep_view() == split_char(output@, '\n'),
                local_chars@ == self.local_ip.unwrap()@,
                secs == self.sample_interval,
                pull_map_from(ls.deep_view(), local_chars@, secs as int, 0, Map::empty())
                    == pull_map_from(ls.deep_view(), local_chars@, secs as int, i as int, snap@),
            decreases n - i,
        {
            match line_record_exec(&ls, local_chars.as_slice(), secs, i) {
                Some((ip, st)) => {
                    snap.put(ip.as_str(), st);
                },
                None => {},
            }
            i = i + 1;
        }
        snap
    }

    /// No teardown is needed: the capture tool already exited inside
    /// the capture itself.
    pub fn stop(&mut self) -> (r: Result<(), ()>)
        ensures
            r is Ok,
            *final(self) == *old(self),
    {
        Ok(())
    }
}

} // verus!
