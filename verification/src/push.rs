use vstd::prelude::*;

verus! {

use crate::snapshot::Snapshot;
use crate::stats::TrafficStats;
use crate::ip::is_public_ip;
use crate::ip::is_public_chars;
use crate::text::{
    all_digits,
    digits_val,
    trim_spaces,
    trim_chars,
    contains_seq,
    contains_sub,
    find_char_from,
    find_char,
    find_sub_from,
    find_sub,
    chars_eq_str,
    chars_to_string,
    str_to_chars,
    subrange_vec,
    parse_u64,
    u64_to_string,
};
use vstd::string::StringExecFns;

/// Which counter section of the streaming agent's output the parser is
/// inside; outside any section, value lines are ignored.
#[derive(Clone, Copy, Debug, PartialEq, Eq, Structural)]
pub enum Section {
    Idle,
    TxBytes,
    TxPackets,
    RxBytes,
    RxPackets,
}

/// The line announcing that the streaming agent is up; everything
/// before it is ignored.
pub open spec fn start_marker() -> Seq<char> {
    "BPFTRACE_MONITOR_START"@
}

/// The marker opening a new reporting cycle: the scratch map resets.
pub open spec fn update_marker() -> Seq<char> {
    "STATS_UPDATE"@
}

/// The marker closing a cycle: the scratch map is emitted if anything
/// accumulated.
pub open spec fn end_marker() -> Seq<char> {
    "STATS_END"@
}

/// The counters with the field named by one section replaced.
pub open spec fn set_section_field(s: TrafficStats, sec: Section, v: u64) -> TrafficStats {
    match sec {
        Section::Idle => s,
        Section::TxBytes => TrafficStats { tx_bytes: v, ..s },
        Section::TxPackets => TrafficStats { tx_packets: v, ..s },
        Section::RxBytes => TrafficStats { rx_bytes: v, ..s },
        Section::RxPackets => TrafficStats { rx_packets: v, ..s },
    }
}

/// What a trimmed `@map[key]: value` line carries: the key text
/// between the first `[` and the first `]:`, and the decimal value
/// after the `]:`. A line not of that shape carries nothing.
pub open spec fn map_line_update(t: Seq<char>) -> Option<(Seq<char>, int)> {
    if t.len() > 0 && t[0] == '@' && find_char_from(t, '[', 0) is Some && find_sub_from(
        t,
        seq![']', ':'],
        0,
    ) is Some {
        let bs = find_char_from(t, '[', 0).unwrap();
        let be = find_sub_from(t, seq![']', ':'], 0).unwrap();
        if bs + 1 <= be {
            let ip = t.subrange(bs + 1, be);
            let vt = trim_spaces(t.subrange(be + 2, t.len() as int));
            if vt.len() > 0 && all_digits(vt) && digits_val(vt) <= u64::MAX {
                Some((ip, digits_val(vt)))
            } else {
                None
            }
        } else {
            None
        }
    } else {
        None
    }
}

/// The state machine that turns the streaming agent's output lines
/// into one snapshot per completed cycle. It stays inert until the
/// start marker, resets its scratch map on each cycle marker, fills
/// the scratch map from value lines under the active section (dropping
/// keys that are not public IPs), and hands the scratch map out on
/// each end marker that closes a non-empty cycle.
pub struct PushParser {
    pub started: bool,
    pub section: Section,
    pub scratch: Snapshot,
}

impl PushParser {
    pub fn new() -> (r: PushParser)
        ensures
            r.scratch.wf(),
            !r.started,
            r.section == Section::Idle,
            r.scratch.spec_len() == 0,
    {
        PushParser { started: false, section: Section::Idle, scratch: Snapshot::new() }
    }

    /// Feeds one output line through the state machine; returns the
    /// finished cycle's snapshot when the line completes a non-empty
    /// cycle.
    pub fn step(&mut self, line: &str) -> (r: Option<Snapshot>)
        requires
            old(self).scratch.wf(),
        ensures
            final(self).scratch.wf(),
            ({
                let l = line@;
                let t = trim_spaces(l);
                if !old(self).started {
                    &&& r is None
                    &&& final(self).started == contains_seq(l, start_marker())
                    &&& final(self).section == old(self).section
                    &&& final(self).scratch == old(self).scratch
                } else if contains_seq(l, update_marker()) {
                    &&& r is None
                    &&& final(self).started
                    &&& final(self).section == old(self).section
                    &&& final(self).scratch.spec_len() == 0
                    &&& final(self).scratch@ =~= Map::<Seq<char>, TrafficStats>::empty()
                } else if contains_seq(l, end_marker()) {
                    &&& r == if old(self).scratch.spec_len() > 0 {
                        Some(old(self).scratch)
                    } else {
                        None::<Snapshot>
                    }
                    &&& final(self).started
                    &&& final(self).section == Section::Idle
                    &&& final(self).scratch.spec_len() == 0
                    &&& final(self).scratch@ =~= Map::<Seq<char>, TrafficStats>::empty()
                } else {
                    &&& r is None
                    &&& final(self).started
                    &&& if t == "TX_BYTES:"@ {
                        final(self).section == Section::TxBytes && final(self).scratch == old(
                            self,
                        ).scratch
                    } else if t == "TX_PACKETS:"@ {
                        final(self).section == Section::TxPackets && final(self).scratch == old(
                            self,
                        ).scratch
                    } else if t == "RX_BYTES:"@ {
                        final(self).section == Section::RxBytes && final(self).scratch == old(
                            self,
                        ).scratch
                    } else if t == "RX_PACKETS:"@ {
                        final(self).section == Section::RxPackets && final(self).scratch == old(
                            self,
                        ).scratch
                    } else {
                        final(self).section == old(self).section && match map_line_update(t) {
                            Some(kv) => if old(self).section != Section::Idle && is_public_ip(
                                kv.0,
                            ) {
                                final(self).scratch@ =~= old(self).scratch@.insert(
                                    kv.0,
                                    set_section_field(
                                        old(self).scratch.spec_get_or_zero(kv.0),
                                        old(self).section,
                                        kv.1 as u64,
                                    ),
                                ) && final(self).scratch.keys() == if old(
                                    self,
                                ).scratch.contains_key(kv.0) {
                                    old(self).scratch.keys()
                                } else {
                                    old(self).scratch.keys().push(kv.0)
                                }
                            } else {
                                final(self).scratch == old(self).scratch
                            },
                            None => final(self).scratch == old(self).scratch,
                        }
                    }
                }
            }),
    {
        let chars = str_to_chars(line);
        if !self.started {
            let pat = str_to_chars("BPFTRACE_MONITOR_START");
            if contains_sub(chars.as_slice(), pat.as_slice()) {
                self.started = true;
            }
            return None;
        }
        let upd = str_to_chars("STATS_UPDATE");
        if contains_sub(chars.as_slice(), upd.as_slice()) {
            self.scratch = Snapshot::new();
            return None;
        }
        let end = str_to_chars("STATS_END");
        if contains_sub(chars.as_slice(), end.as_slice()) {
            let mut out = Snapshot::new();
            core::mem::swap(&mut out, &mut self.scratch);
            self.section = Section::Idle;
            if out.len() > 0 {
                return Some(out);
            }
            return None;
        }
        let t = trim_chars(chars.as_slice());
        if chars_eq_str(t.as_slice(), "TX_BYTES:") {
            self.section = Section::TxBytes;
            return None;
        }
        if chars_eq_str(t.as_slice(), "TX_PACKETS:") {
            self.section = Section::TxPackets;
            return None;
        }
        if chars_eq_str(t.as_slice(), "RX_BYTES:") {
            self.section = Section::RxBytes;
            return None;
        }
        if chars_eq_str(t.as_slice(), "RX_PACKETS:") {
            self.section = Section::RxPackets;
            return None;
        }
        if t.len() == 0 || t[0] != '@' {
            return None;
        }
        let bs = match find_char(t.as_slice(), '[', 0) {
            Some(i) => i,
            None => {
                return None;
            },
        };
        let cpat: Vec<char> = vec![']', ':'];
        proof {
            assert(cpat@ =~= seq![']', ':']);
        }
        let be = match find_sub(t.as_slice(), cpat.as_slice(), 0) {
            Some(i) => i,
            None => {
                return None;
            },
        };
        proof {
            crate::text::lemma_find_char_from(t@, '[', 0);
            crate::text::lemma_find_sub_from(t@, cpat@, 0);
        }
        if bs + 1 > be {
            return None;
        }
        let ip_chars = subrange_vec(t.as_slice(), bs + 1, be);
        let vt = trim_chars(subrange_vec(t.as_slice(), be + 2, t.len()).as_slice());
        let v = match parse_u64(vt.as_slice()) {
            Some(v) => v,
            None => {
                return None;
            },
        };
        if self.section == Section::Idle {
            return None;
        }
        if !is_public_chars(ip_chars.as_slice()) {
            return None;
        }
        let cur = match self.scratch.get(chars_to_string(ip_chars.as_slice()).as_str()) {
            Some(s) => s,
            None => TrafficStats::zero(),
        };
        let updated = match self.section {
            Section::Idle => cur,
            Section::TxBytes => TrafficStats { tx_bytes: v, ..cur },
            Section::TxPackets => TrafficStats { tx_packets: v, ..cur },
            Section::RxBytes => TrafficStats { rx_bytes: v, ..cur },
            Section::RxPackets => TrafficStats { rx_packets: v, ..cur },
        };
        let ip_string = chars_to_string(ip_chars.as_slice());
        self.scratch.put(ip_string.as_str(), updated);
        None
    }
}

/// The trace agent's program up to the reporting interval: probes that
/// sum per-IP bytes and packets in both directions, announced by the
/// start marker.
pub open spec fn script_prefix() -> Seq<char> {
    "BEGIN {\n    printf(\"BPFTRACE_MONITOR_START\\n\");\n}\n\ntracepoint:net:netif_receive_skb\n{\n    $skb = (struct sk_buff *)args->skbaddr;\n    $iph = (struct iphdr *)($skb->head + $skb->network_header);\n    $saddr = $iph->saddr;\n    $len = args->len;\n\n    @rx_bytes[ntop($saddr)] = sum($len);\n    @rx_packets[ntop($saddr)] = count();\n}\n\ntracepoint:net:net_dev_start_xmit\n{\n    $skb = (struct sk_buff *)args->skbaddr;\n    $iph = (struct iphdr *)($skb->head + $skb->network_header);\n    $daddr = $iph->daddr;\n    $len = args->len;\n\n    @tx_bytes[ntop($daddr)] = sum($len);\n    @tx_packets[ntop($daddr)] = count();\n}\n\ninterval:s:"@
}

/// The trace agent's program after the reporting interval: each
/// interval prints one cycle (cycle marker, the four sections, end
/// marker) and clears the maps.
pub open spec fn script_suffix() -> Seq<char> {
    " {\n    printf(\"STATS_UPDATE\\n\");\n    printf(\"TX_BYTES:\\n\");\n    print(@tx_bytes);\n    printf(\"TX_PACKETS:\\n\");\n    print(@tx_packets);\n    printf(\"RX_BYTES:\\n\");\n    print(@rx_bytes);\n    printf(\"RX_PACKETS:\\n\");\n    print(@rx_packets);\n    printf(\"STATS_END\\n\");\n\n    clear(@tx_bytes);\n    clear(@tx_packets);\n    clear(@rx_bytes);\n    clear(@rx_packets);\n}\n"@
}

/// The streaming-model backend around the external trace agent: the
/// agent runs for the backend's lifetime and self-reports per-IP
/// counters each interval, which `parser` turns into snapshots. The
/// subprocess and its reader thread run outside the library; this type
/// holds the configuration, the generated program, and the parsing.
pub struct BpftraceMonitor {
    pub sample_interval: u32,
    pub script_path: Option<String>,
}

impl BpftraceMonitor {
    /// A streaming backend for one sampling interval, optionally with
    /// a custom agent program to run instead of the generated one.
    pub fn new(sample_interval: u32, script_path: Option<String>) -> (r: BpftraceMonitor)
        ensures
            r.sample_interval == sample_interval,
            r.script_path == script_path,
    {
        BpftraceMonitor { sample_interval, script_path }
    }

    /// The agent program to run when no custom one was given: the
    /// probes with this backend's reporting interval spliced in.
    pub fn generate_script(&self) -> (r: String)
        ensures
            r@ == script_prefix() + crate::text::dec_rep(self.sample_interval as int)
                + script_suffix(),
    {
        let mut s = String::from_str(
            "BEGIN {\n    printf(\"BPFTRACE_MONITOR_START\\n\");\n}\n\ntracepoint:net:netif_receive_skb\n{\n    $skb = (struct sk_buff *)args->skbaddr;\n    $iph = (struct iphdr *)($skb->head + $skb->network_header);\n    $saddr = $iph->saddr;\n    $len = args->len;\n\n    @rx_bytes[ntop($saddr)] = sum($len);\n    @rx_packets[ntop($saddr)] = count();\n}\n\ntracepoint:net:net_dev_start_xmit\n{\n    $skb = (struct sk_buff *)args->skbaddr;\n    $iph = (struct iphdr *)($skb->head + $skb->network_header);\n    $daddr = $iph->daddr;\n    $len = args->len;\n\n    @tx_bytes[ntop($daddr)] = sum($len);\n    @tx_packets[ntop($daddr)] = count();\n}\n\ninterval:s:",
        );
        s.append(u64_to_string(self.sample_interval as u64).as_str());
        s.append(
            " {\n    printf(\"STATS_UPDATE\\n\");\n    printf(\"TX_BYTES:\\n\");\n    print(@tx_bytes);\n    printf(\"TX_PACKETS:\\n\");\n    print(@tx_packets);\n    printf(\"RX_BYTES:\\n\");\n    print(@rx_bytes);\n    printf(\"RX_PACKETS:\\n\");\n    print(@rx_packets);\n    printf(\"STATS_END\\n\");\n\n    clear(@tx_bytes);\n    clear(@tx_packets);\n    clear(@rx_bytes);\n    clear(@rx_packets);\n}\n",
        );
        s
    }

    /// The backend's display name.
    pub fn name(&self) -> (r: &'static str)
        ensures
            r@ == "bpftrace"@,
    {
        "bpftrace"
    }
}

} // verus!
