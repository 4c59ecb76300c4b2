use vstd::prelude::*;

verus! {

use crate::text::{
    all_digits,
    all_hex_digits,
    digits_val,
    hex_digits_val,
    dec_rep,
    tokens,
    tokenize,
    split_char,
    split_char_exec,
    parse_u64,
    parse_hex_u32,
    str_eq,
    str_to_chars,
    push_char,
    u64_to_string,
};
use vstd::string::StringExecFns;

/// How long a resolved PID (or an explicit not-found) stays valid in
/// the per-IP cache, in seconds.
pub const PID_CACHE_TTL_SECS: u64 = 3600;

/// How long the connection table built from the kernel stays valid, in
/// seconds.
pub const TCP_CACHE_TTL_SECS: u64 = 5;

/// A cache entry inserted at `stamp` is valid at `now` while its age
/// is under the TTL.
pub open spec fn entry_valid(stamp: u64, now: u64, ttl: u64) -> bool {
    now - stamp < ttl
}

/// The TTL window has a sharp edge: an entry inserted at `t` is still
/// honored one second before its TTL runs out and is a miss one second
/// after.
pub proof fn lemma_cache_ttl_boundary(t: u64, ttl: u64)
    requires
        ttl >= 1,
        t + ttl + 1 <= u64::MAX,
    ensures
        entry_valid(t, (t + ttl - 1) as u64, ttl),
        !entry_valid(t, (t + ttl + 1) as u64, ttl),
{
}

/// Exec test for `entry_valid`.
pub fn check_entry_valid(stamp: u64, now: u64, ttl: u64) -> (r: bool)
    ensures
        r == entry_valid(stamp, now, ttl),
{
    if now >= stamp {
        now - stamp < ttl
    } else {
        true
    }
}

/// The value the last entry for a key carries, as a map built by
/// repeated insertion would hold it.
pub open spec fn last_match(es: Seq<(Seq<char>, u32)>, k: Seq<char>) -> Option<u32>
    decreases es.len(),
{
    if es.len() == 0 {
        None
    } else if es.last().0 == k {
        Some(es.last().1)
    } else {
        last_match(es.drop_last(), k)
    }
}

/// As `last_match`, for the name cache keyed by PID.
pub open spec fn last_name_match(es: Seq<(i32, Seq<char>)>, pid: i32) -> Option<Seq<char>>
    decreases es.len(),
{
    if es.len() == 0 {
        None
    } else if es.last().0 == pid {
        Some(es.last().1)
    } else {
        last_name_match(es.drop_last(), pid)
    }
}

/// The dotted-quad text of four octet values.
pub open spec fn ipv4_text(a: int, b: int, c: int, d: int) -> Seq<char> {
    dec_rep(a) + seq!['.'] + dec_rep(b) + seq!['.'] + dec_rep(c) + seq!['.'] + dec_rep(d)
}

/// Renders the dotted-quad text of four octets.
pub fn ipv4_to_string(a: u8, b: u8, c: u8, d: u8) -> (r: String)
    ensures
        r@ == ipv4_text(a as int, b as int, c as int, d as int),
{
    let mut s = u64_to_string(a as u64);
    push_char(&mut s, '.');
    s.append(u64_to_string(b as u64).as_str());
    push_char(&mut s, '.');
    s.append(u64_to_string(c as u64).as_str());
    push_char(&mut s, '.');
    s.append(u64_to_string(d as u64).as_str());
    proof {
        assert(s@ =~= ipv4_text(a as int, b as int, c as int, d as int));
    }
    s
}

/// What one line of the kernel's TCP table yields: with at least ten
/// whitespace tokens, the third token's part before the colon is the
/// remote address as little-endian hexadecimal, and the tenth token is
/// the socket inode. Lines not of that shape (the header among them)
/// yield nothing.
pub open spec fn tcp_line_entry(l: Seq<char>) -> Option<(Seq<char>, u32)> {
    let toks = tokens(l);
    if toks.len() >= 10 {
        let addr_piece = split_char(toks[2], ':')[0];
        if addr_piece.len() > 0 && all_hex_digits(addr_piece) && hex_digits_val(addr_piece)
            <= u32::MAX {
            let a = hex_digits_val(addr_piece);
            let inode_tok = toks[9];
            if inode_tok.len() > 0 && all_digits(inode_tok) && digits_val(inode_tok) <= u32::MAX {
                Some(
                    (
                        ipv4_text(a % 256, a / 256 % 256, a / 65536 % 256, a / 16777216 % 256),
                        digits_val(inode_tok) as u32,
                    ),
                )
            } else {
                None
            }
        } else {
            None
        }
    } else {
        None
    }
}

/// The remote-IP-to-inode entries the whole table text yields, from
/// line `i` on; the first line is the header and is skipped by
/// starting at one.
pub open spec fn proc_tcp_entries(lines: Seq<Seq<char>>, i: int) -> Seq<(Seq<char>, u32)>
    decreases lines.len() - i,
{
    if i < 0 || i >= lines.len() {
        Seq::empty()
    } else {
        let rest = proc_tcp_entries(lines, i + 1);
        match tcp_line_entry(lines[i]) {
            Some(e) => seq![e] + rest,
            None => rest,
        }
    }
}

/// Parses the kernel's TCP table text into remote-IP-to-inode entries,
/// exact against `proc_tcp_entries` with the header line skipped.
pub fn parse_proc_net_tcp(content: &str) -> (r: Vec<(String, u32)>)
    ensures
        r.deep_view() == proc_tcp_entries(split_char(content@, '\n'), 1),
{
    let chars = str_to_chars(content);
    let ls = split_char_exec(chars.as_slice(), '\n');
    let n = ls.len();
    let mut out: Vec<(String, u32)> = Vec::new();
    let mut i: usize = 1;
    proof {
        assert(forall|j: int| 0 <= j < ls@.len() ==> #[trigger] ls.deep_view()[j] == ls@[j]@);
    }
    while i < n
        invariant
            n == ls@.len(),
            1 <= i <= n || (n == 0 && i == 1),
            ls.deep_view() == split_char(content@, '\n'),
            forall|j: int| 0 <= j < ls@.len() ==> #[trigger] ls.deep_view()[j] == ls@[j]@,
            proc_tcp_entries(ls.deep_view(), 1) =~~= out.deep_view() + proc_tcp_entries(
                ls.deep_view(),
                i as int,
            ),
        decreases n - i,
    {
        let toks = tokenize(ls[i].as_slice());
        if toks.len() >= 10 {
            proof {
                assert(toks.deep_view()[2] == toks@[2]@);
                assert(toks.deep_view()[9] == toks@[9]@);
            }
            let addr_pieces = split_char_exec(toks[2].as_slice(), ':');
            proof {
                assert(split_char(toks@[2]@, ':').len() >= 1);
                assert(addr_pieces.deep_view()[0] == addr_pieces@[0]@);
            }
            match parse_hex_u32(addr_pieces[0].as_slice()) {
                Some(a) => {
                    match parse_u64(toks[9].as_slice()) {
                        Some(inode64) => {
                            if inode64 <= u32::MAX as u64 {
                                let o0 = (a % 256) as u8;
                                let o1 = (a / 256 % 256) as u8;
                                let o2 = (a / 65536 % 256) as u8;
                                let o3 = (a / 16777216 % 256) as u8;
                                let ip = ipv4_to_string(o0, o1, o2, o3);
                                let ghost prev = out.deep_view();
                                out.push((ip, inode64 as u32));
                                proof {
                                    let e = tcp_line_entry(ls.deep_view()[i as int]).unwrap();
                                    assert(out.deep_view() =~~= prev + seq![e]);
                                }
                            }
                        },
                        None => {},
                    }
                },
                None => {},
            }
        }
        i = i + 1;
    }
    out
}

/// What one connection-resolution step asks for next: an answer from
/// the cache, a rebuild of the kernel connection table, or a scan of
/// the processes' open sockets for one inode.
#[derive(Clone, Copy, Debug, PartialEq, Eq, Structural)]
pub enum PidQuery {
    Cached(Option<i32>),
    NeedTcpMap,
    NeedInodeScan(u32),
}

/// The connection resolver's layered caches: resolved PIDs by IP with
/// a long TTL, the kernel connection table with a short TTL, and
/// process names by PID for the process's lifetime. The kernel reads
/// and process scans themselves happen outside the library; the
/// resolver decides when they are needed and remembers their results.
pub struct Resolver {
    pid_cache: Vec<(String, Option<i32>, u64)>,
    tcp_entries: Vec<(String, u32)>,
    tcp_stamp: u64,
    tcp_loaded: bool,
    name_cache: Vec<(i32, String)>,
}

impl Resolver {
    /// The PID cache's keys in entry order.
    pub closed spec fn pid_keys(self) -> Seq<Seq<char>> {
        self.pid_cache@.map_values(|e: (String, Option<i32>, u64)| e.0@)
    }

    /// The PID cache as a map from IP text to (resolution, stamp).
    pub closed spec fn pid_map(self) -> Map<Seq<char>, (Option<i32>, u64)> {
        Map::new(
            |k: Seq<char>| exists|i: int| 0 <= i < self.pid_cache@.len() && self.pid_cache@[i].0@ == k,
            |k: Seq<char>|
                {
                    let i = choose|i: int|
                        0 <= i < self.pid_cache@.len() && self.pid_cache@[i].0@ == k;
                    (self.pid_cache@[i].1, self.pid_cache@[i].2)
                },
        )
    }

    /// The connection table's entries as parsed, in order.
    pub closed spec fn tcp_view(self) -> Seq<(Seq<char>, u32)> {
        self.tcp_entries@.map_values(|e: (String, u32)| (e.0@, e.1))
    }

    pub closed spec fn tcp_stamp_view(self) -> u64 {
        self.tcp_stamp
    }

    pub closed spec fn tcp_loaded_view(self) -> bool {
        self.tcp_loaded
    }

    /// The name cache's entries, in order.
    pub closed spec fn names_view(self) -> Seq<(i32, Seq<char>)> {
        self.name_cache@.map_values(|e: (i32, String)| (e.0, e.1@))
    }

    pub closed spec fn wf(self) -> bool {
        forall|i: int, j: int|
            #![trigger self.pid_cache@[i].0, self.pid_cache@[j].0]
            0 <= i < j < self.pid_cache@.len() ==> self.pid_cache@[i].0@ != self.pid_cache@[j].0@
    }

    /// Whether the connection table was ever loaded and is still
    /// within its TTL.
    pub open spec fn tcp_fresh_at(self, now: u64) -> bool {
        self.tcp_loaded_view() && entry_valid(self.tcp_stamp_view(), now, TCP_CACHE_TTL_SECS)
    }

    pub fn new() -> (r: Resolver)
        ensures
            r.wf(),
            r.pid_map() =~= Map::<Seq<char>, (Option<i32>, u64)>::empty(),
            r.tcp_view() =~= Seq::<(Seq<char>, u32)>::empty(),
            !r.tcp_loaded_view(),
            r.names_view() =~= Seq::<(i32, Seq<char>)>::empty(),
    {
        let r = Resolver {
            pid_cache: Vec::new(),
            tcp_entries: Vec::new(),
            tcp_stamp: 0,
            tcp_loaded: false,
            name_cache: Vec::new(),
        };
        proof {
            assert(r.pid_map() =~= Map::<Seq<char>, (Option<i32>, u64)>::empty());
        }
        r
    }

    /// The PID-cache index holding an IP, if any.
    fn pid_find(&self, ip: &str) -> (r: Option<usize>)
        ensures
            match r {
                Some(i) => i < self.pid_cache@.len() && self.pid_cache@[i as int].0@ == ip@,
                None => !(exists|i: int|
                    0 <= i < self.pid_cache@.len() && self.pid_cache@[i].0@ == ip@),
            },
    {
        let n = self.pid_cache.len();
        let mut i: usize = 0;
        while i < n
            invariant
                n == self.pid_cache@.len(),
                i <= n,
                forall|j: int| 0 <= j < i ==> self.pid_cache@[j].0@ != ip@,
            decreases n - i,
        {
            if str_eq(self.pid_cache[i].0.as_str(), ip) {
                return Some(i);
            }
            i = i + 1;
        }
        None
    }

    /// In a well-formed resolver the PID-cache key at a position
    /// determines that position.
    proof fn lemma_pid_entry(self, i: int)
        requires
            self.wf(),
            0 <= i < self.pid_cache@.len(),
        ensures
            self.pid_map().contains_key(self.pid_cache@[i].0@),
            self.pid_map()[self.pid_cache@[i].0@] == (self.pid_cache@[i].1, self.pid_cache@[i].2),
    {
        let k = self.pid_cache@[i].0@;
        let j = choose|j: int| 0 <= j < self.pid_cache@.len() && self.pid_cache@[j].0@ == k;
        if i < j {
            assert(false);
        } else if j < i {
            assert(false);
        }
    }

    /// Removing one PID-cache entry removes its key's mapping.
    proof fn lemma_pid_view_remove(self, o: Resolver, i: int)
        requires
            o.wf(),
            0 <= i < o.pid_cache@.len(),
            self.pid_cache@.len() == o.pid_cache@.len() - 1,
            forall|j: int| 0 <= j < i ==> #[trigger] self.pid_cache@[j] == o.pid_cache@[j],
            forall|j: int| i <= j < self.pid_cache@.len() ==> #[trigger] self.pid_cache@[j]
                == o.pid_cache@[j + 1],
        ensures
            self.wf(),
            self.pid_map() =~= o.pid_map().remove(o.pid_cache@[i].0@),
    {
        let n = self.pid_cache@.len() as int;
        let ghost idx_o = |j: int| if j < i { j } else { j + 1 };
        assert forall|a: int, b: int|
            #![trigger self.pid_cache@[a].0, self.pid_cache@[b].0]
            0 <= a < b < n implies self.pid_cache@[a].0@ != self.pid_cache@[b].0@ by {
            assert(self.pid_cache@[a] == o.pid_cache@[idx_o(a)]);
            assert(self.pid_cache@[b] == o.pid_cache@[idx_o(b)]);
        }
        assert forall|k2: Seq<char>| #[trigger]
            self.pid_map().contains_key(k2) implies o.pid_map().remove(
            o.pid_cache@[i].0@,
        ).contains_key(k2) by {
            let j = choose|j: int| 0 <= j < n && self.pid_cache@[j].0@ == k2;
            assert(o.pid_cache@[idx_o(j)].0@ == k2);
            assert(idx_o(j) != i);
        }
        assert forall|k2: Seq<char>| #[trigger]
            o.pid_map().remove(o.pid_cache@[i].0@).contains_key(
            k2,
        ) implies self.pid_map().contains_key(k2) by {
            let j = choose|j: int| 0 <= j < o.pid_cache@.len() && o.pid_cache@[j].0@ == k2;
            assert(j != i) by {
                if j == i {
                    assert(false);
                }
            }
            if j < i {
                assert(self.pid_cache@[j].0@ == k2);
            } else {
                assert(self.pid_cache@[j - 1].0@ == k2);
            }
        }
        assert forall|k2: Seq<char>| #[trigger]
            self.pid_map().contains_key(k2) implies self.pid_map()[k2] == o.pid_map().remove(
            o.pid_cache@[i].0@,
        )[k2] by {
            let j = choose|j: int| 0 <= j < n && self.pid_cache@[j].0@ == k2;
            self.lemma_pid_entry(j);
            o.lemma_pid_entry(idx_o(j));
        }
    }

    /// Appending a fresh PID-cache entry adds its key's mapping.
    proof fn lemma_pid_view_push(self, o: Resolver, k: Seq<char>, pid: Option<i32>, stamp: u64)
        requires
            o.wf(),
            !(exists|i: int| 0 <= i < o.pid_cache@.len() && o.pid_cache@[i].0@ == k),
            self.pid_cache@.len() == o.pid_cache@.len() + 1,
            self.pid_cache@[self.pid_cache@.len() - 1].0@ == k,
            self.pid_cache@[self.pid_cache@.len() - 1].1 == pid,
            self.pid_cache@[self.pid_cache@.len() - 1].2 == stamp,
            forall|j: int| 0 <= j < o.pid_cache@.len() ==> #[trigger] self.pid_cache@[j]
                == o.pid_cache@[j],
        ensures
            self.wf(),
            self.pid_map() =~= o.pid_map().insert(k, (pid, stamp)),
    {
        let n = o.pid_cache@.len() as int;
        assert forall|a: int, b: int|
            #![trigger self.pid_cache@[a].0, self.pid_cache@[b].0]
            0 <= a < b < self.pid_cache@.len() implies self.pid_cache@[a].0@
            != self.pid_cache@[b].0@ by {
            if b < n {
                assert(o.pid_cache@[a].0@ != o.pid_cache@[b].0@);
            } else {
                assert(o.pid_cache@[a].0@ != k);
            }
        }
        assert forall|k2: Seq<char>| #[trigger]
            self.pid_map().contains_key(k2) implies o.pid_map().insert(
            k,
            (pid, stamp),
        ).contains_key(k2) by {
            let j = choose|j: int| 0 <= j < self.pid_cache@.len() && self.pid_cache@[j].0@ == k2;
            if j < n {
                assert(o.pid_cache@[j].0@ == k2);
            }
        }
        assert forall|k2: Seq<char>| #[trigger]
            o.pid_map().insert(k, (pid, stamp)).contains_key(k2) implies self.pid_map().contains_key(
            k2,
        ) by {
            if k2 == k {
                assert(self.pid_cache@[n].0@ == k2);
            } else {
                let j = choose|j: int| 0 <= j < o.pid_cache@.len() && o.pid_cache@[j].0@ == k2;
                assert(self.pid_cache@[j].0@ == k2);
            }
        }
        assert forall|k2: Seq<char>| #[trigger]
            self.pid_map().contains_key(k2) implies self.pid_map()[k2] == o.pid_map().insert(
            k,
            (pid, stamp),
        )[k2] by {
            let j = choose|j: int| 0 <= j < self.pid_cache@.len() && self.pid_cache@[j].0@ == k2;
            self.lemma_pid_entry(j);
            if k2 == k {
                assert(j == n) by {
                    if j < n {
                        assert(o.pid_cache@[j].0@ == k);
                        assert(false);
                    }
                }
            } else {
                assert(j < n);
                o.lemma_pid_entry(j);
            }
        }
    }

    /// Looks an IP up in the PID cache: a valid entry answers; an
    /// expired one is dropped (to be replaced by the next resolution)
    /// and counts as a miss.
    pub fn pid_cache_lookup(&mut self, ip: &str, now: u64) -> (r: Option<Option<i32>>)
        requires
            old(self).wf(),
        ensures
            final(self).wf(),
            final(self).tcp_view() == old(self).tcp_view(),
            final(self).tcp_stamp_view() == old(self).tcp_stamp_view(),
            final(self).tcp_loaded_view() == old(self).tcp_loaded_view(),
            final(self).names_view() == old(self).names_view(),
            r is Some <==> (old(self).pid_map().contains_key(ip@) && entry_valid(
                old(self).pid_map()[ip@].1,
                now,
                PID_CACHE_TTL_SECS,
            )),
            r is Some ==> r.unwrap() == old(self).pid_map()[ip@].0 && final(self).pid_map() == old(
                self,
            ).pid_map(),
            r is None ==> final(self).pid_map() =~= old(self).pid_map().remove(ip@),
    {
        let found = self.pid_find(ip);
        match found {
            Some(i) => {
                proof {
                    self.lemma_pid_entry(i as int);
                }
                let stamp = self.pid_cache[i].2;
                if check_entry_valid(stamp, now, PID_CACHE_TTL_SECS) {
                    Some(self.pid_cache[i].1)
                } else {
                    let ghost o = *self;
                    let _ = self.pid_cache.remove(i);
                    proof {
                        self.lemma_pid_view_remove(o, i as int);
                    }
                    None
                }
            },
            None => {
                proof {
                    assert(!self.pid_map().contains_key(ip@));
                    assert(self.pid_map() =~= self.pid_map().remove(ip@));
                }
                None
            },
        }
    }

    /// Records a resolution outcome (a PID, or an explicit not-found)
    /// for an IP at the given time.
    pub fn record_pid(&mut self, ip: &str, pid: Option<i32>, now: u64)
        requires
            old(self).wf(),
        ensures
            final(self).wf(),
            final(self).tcp_view() == old(self).tcp_view(),
            final(self).tcp_stamp_view() == old(self).tcp_stamp_view(),
            final(self).tcp_loaded_view() == old(self).tcp_loaded_view(),
            final(self).names_view() == old(self).names_view(),
            final(self).pid_map() =~= old(self).pid_map().insert(ip@, (pid, now)),
    {
        let ip_owned = String::from_str(ip);
        let found = self.pid_find(ip);
        match found {
            Some(i) => {
                let ghost o = *self;
                let _ = self.pid_cache.remove(i);
                proof {
                    self.lemma_pid_view_remove(o, i as int);
                }
                let ghost o2 = *self;
                self.pid_cache.push((ip_owned, pid, now));
                proof {
                    self.lemma_pid_view_push(o2, ip@, pid, now);
                    assert(self.pid_map() =~= old(self).pid_map().insert(ip@, (pid, now)));
                }
            },
            None => {
                let ghost o = *self;
                self.pid_cache.push((ip_owned, pid, now));
                proof {
                    self.lemma_pid_view_push(o, ip@, pid, now);
                }
            },
        }
    }

    /// Whether the connection table is loaded and still fresh.
    pub fn tcp_fresh(&self, now: u64) -> (r: bool)
        ensures
            r == self.tcp_fresh_at(now),
    {
        self.tcp_loaded && check_entry_valid(self.tcp_stamp, now, TCP_CACHE_TTL_SECS)
    }

    /// Installs a freshly parsed connection table at the given time.
    pub fn set_tcp_map(&mut self, entries: Vec<(String, u32)>, now: u64)
        requires
            old(self).wf(),
        ensures
            final(self).wf(),
            final(self).pid_map() == old(self).pid_map(),
            final(self).names_view() == old(self).names_view(),
            final(self).tcp_view() == entries.deep_view(),
            final(self).tcp_stamp_view() == now,
            final(self).tcp_loaded_view(),
    {
        self.tcp_entries = entries;
        self.tcp_stamp = now;
        self.tcp_loaded = true;
        proof {
            assert(self.tcp_view() =~= self.tcp_entries.deep_view());
        }
    }

    /// The inode the connection table holds for an IP: the last entry
    /// wins, as repeated insertion into a map would have it.
    pub fn tcp_lookup(&self, ip: &str) -> (r: Option<u32>)
        ensures
            r == last_match(self.tcp_view(), ip@),
    {
        let n = self.tcp_entries.len();
        let mut i: usize = n;
        proof {
            assert(self.tcp_view().subrange(0, n as int) =~= self.tcp_view());
        }
        while i > 0
            invariant
                n == self.tcp_entries@.len(),
                i <= n,
                last_match(self.tcp_view(), ip@) == last_match(
                    self.tcp_view().subrange(0, i as int),
                    ip@,
                ),
            decreases i,
        {
            proof {
                assert(self.tcp_view().subrange(0, i as int).last() == (
                    self.tcp_entries@[i - 1].0@,
                    self.tcp_entries@[i - 1].1,
                ));
            }
            if str_eq(self.tcp_entries[i - 1].0.as_str(), ip) {
                return Some(self.tcp_entries[i - 1].1);
            }
            proof {
                assert(self.tcp_view().subrange(0, i as int).drop_last() =~= self.tcp_view()
                    .subrange(0, i - 1 as int));
            }
            i = i - 1;
        }
        proof {
            assert(self.tcp_view().subrange(0, 0) =~= Seq::<(Seq<char>, u32)>::empty());
        }
        None
    }

    /// One resolution step for an IP at the given time: answers from a
    /// valid cache entry; asks for a connection-table rebuild when the
    /// table is stale; asks for a process scan when the table holds an
    /// inode for the IP; and records (and answers) an explicit
    /// not-found when it holds none.
    pub fn get_pid_for_ip(&mut self, ip: &str, now: u64) -> (r: PidQuery)
        requires
            old(self).wf(),
        ensures
            final(self).wf(),
            final(self).tcp_view() == old(self).tcp_view(),
            final(self).tcp_stamp_view() == old(self).tcp_stamp_view(),
            final(self).tcp_loaded_view() == old(self).tcp_loaded_view(),
            final(self).names_view() == old(self).names_view(),
            ({
                let hit = old(self).pid_map().contains_key(ip@) && entry_valid(
                    old(self).pid_map()[ip@].1,
                    now,
                    PID_CACHE_TTL_SECS,
                );
                let base = old(self).pid_map().remove(ip@);
                if hit {
                    r == PidQuery::Cached(old(self).pid_map()[ip@].0) && final(self).pid_map()
                        == old(self).pid_map()
                } else if !old(self).tcp_fresh_at(now) {
                    r == PidQuery::NeedTcpMap && final(self).pid_map() =~= base
                } else {
                    match last_match(old(self).tcp_view(), ip@) {
                        Some(inode) => r == PidQuery::NeedInodeScan(inode)
                            && final(self).pid_map() =~= base,
                        None => r == PidQuery::Cached(None::<i32>) && final(self).pid_map()
                            =~= base.insert(ip@, (None::<i32>, now)),
                    }
                }
            }),
    {
        match self.pid_cache_lookup(ip, now) {
            Some(pid) => PidQuery::Cached(pid),
            None => {
                if !self.tcp_fresh(now) {
                    return PidQuery::NeedTcpMap;
                }
                match self.tcp_lookup(ip) {
                    Some(inode) => PidQuery::NeedInodeScan(inode),
                    None => {
                        self.record_pid(ip, None, now);
                        PidQuery::Cached(None)
                    },
                }
            },
        }
    }

    /// The cached display name for a PID, if any.
    pub fn name_cache_lookup(&self, pid: i32) -> (r: Option<String>)
        ensures
            match r {
                Some(s) => Some(s@) == last_name_match(self.names_view(), pid),
                None => last_name_match(self.names_view(), pid) is None,
            },
    {
        let n = self.name_cache.len();
        let mut i: usize = n;
        proof {
            assert(self.names_view().subrange(0, n as int) =~= self.names_view());
        }
        while i > 0
            invariant
                n == self.name_cache@.len(),
                i <= n,
                last_name_match(self.names_view(), pid) == last_name_match(
                    self.names_view().subrange(0, i as int),
                    pid,
                ),
            decreases i,
        {
            proof {
                assert(self.names_view().subrange(0, i as int).last() == (
                    self.name_cache@[i - 1].0,
                    self.name_cache@[i - 1].1@,
                ));
            }
            if self.name_cache[i - 1].0 == pid {
                let name = String::from_str(self.name_cache[i - 1].1.as_str());
                return Some(name);
            }
            proof {
                assert(self.names_view().subrange(0, i as int).drop_last() =~= self.names_view()
                    .subrange(0, i - 1 as int));
            }
            i = i - 1;
        }
        proof {
            assert(self.names_view().subrange(0, 0) =~= Seq::<(i32, Seq<char>)>::empty());
        }
        None
    }

    /// Remembers a PID's display name; names rarely change for a PID's
    /// lifetime, so there is no expiry.
    pub fn record_name(&mut self, pid: i32, name: String)
        requires
            old(self).wf(),
        ensures
            final(self).wf(),
            final(self).pid_map() == old(self).pid_map(),
            final(self).tcp_view() == old(self).tcp_view(),
            final(self).tcp_stamp_view() == old(self).tcp_stamp_view(),
            final(self).tcp_loaded_view() == old(self).tcp_loaded_view(),
            final(self).names_view() =~= old(self).names_view().push((pid, name@)),
    {
        self.name_cache.push((pid, name));
        proof {
            assert(self.pid_map() =~= old(self).pid_map());
        }
    }
}

} // verus!
