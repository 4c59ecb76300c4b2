use vstd::prelude::*;

verus! {

use crate::stats::TrafficStats;
use crate::text::str_eq;
use vstd::string::StringExecFns;

/// A mapping from remote-IP text to traffic counters, with each IP
/// held at most once. A backend produces one per sampling cycle (the
/// per-interval deltas); the accumulator holds one with the cumulative
/// totals. Entries keep their insertion order, which makes reports
/// deterministic.
pub struct Snapshot {
    entries: Vec<(String, TrafficStats)>,
}

impl View for Snapshot {
    type V = Map<Seq<char>, TrafficStats>;

    /// The snapshot as a mathematical map from IP text to counters.
    closed spec fn view(&self) -> Map<Seq<char>, TrafficStats> {
        Map::new(|k: Seq<char>| self.keys().contains(k), |k: Seq<char>| self.stats_of(k))
    }
}

impl Snapshot {
    /// The IP texts in entry order.
    pub closed spec fn keys(self) -> Seq<Seq<char>> {
        self.entries@.map_values(|e: (String, TrafficStats)| e.0@)
    }

    /// The counters in entry order.
    pub closed spec fn stats_seq(self) -> Seq<TrafficStats> {
        self.entries@.map_values(|e: (String, TrafficStats)| e.1)
    }

    pub open spec fn spec_len(self) -> nat {
        self.keys().len()
    }

    /// Every IP occurs at most once.
    pub open spec fn wf(self) -> bool {
        forall|i: int, j: int|
            #![trigger self.keys()[i], self.keys()[j]]
            0 <= i < j < self.keys().len() ==> self.keys()[i] != self.keys()[j]
    }

    pub open spec fn contains_key(self, k: Seq<char>) -> bool {
        self.keys().contains(k)
    }

    /// The entry index of a present key.
    pub closed spec fn key_index(self, k: Seq<char>) -> int {
        choose|i: int| 0 <= i < self.keys().len() && self.keys()[i] == k
    }

    /// The counters held for a present key.
    pub closed spec fn stats_of(self, k: Seq<char>) -> TrafficStats {
        self.stats_seq()[self.key_index(k)]
    }

    /// In a well-formed snapshot the key at a position determines that
    /// position, and the map view agrees with the entry view there.
    pub proof fn lemma_entry_view(self, i: int)
        requires
            self.wf(),
            0 <= i < self.spec_len(),
        ensures
            self.contains_key(self.keys()[i]),
            self@.contains_key(self.keys()[i]),
            self@[self.keys()[i]] == self.stats_seq()[i],
            self.key_index(self.keys()[i]) == i,
    {
        let k = self.keys()[i];
        assert(self.contains_key(k));
        let j = self.key_index(k);
        assert(0 <= j < self.keys().len() && self.keys()[j] == k);
        if i < j {
            assert(false);
        } else if j < i {
            assert(false);
        }
    }

    /// There are as many counter entries as keys.
    pub proof fn lemma_lens(self)
        ensures
            self.keys().len() == self.stats_seq().len(),
    {
    }

    /// The map view holds exactly the keys of the entry view.
    pub proof fn lemma_view_dom(self)
        ensures
            forall|k: Seq<char>| #[trigger] self@.contains_key(k) <==> self.keys().contains(k),
    {
    }

    /// An empty snapshot.
    pub fn new() -> (r: Snapshot)
        ensures
            r.wf(),
            r.spec_len() == 0,
            r@ =~= Map::<Seq<char>, TrafficStats>::empty(),
    {
        let r = Snapshot { entries: Vec::new() };
        proof {
            assert(r.keys().len() == 0);
            assert(r@ =~= Map::<Seq<char>, TrafficStats>::empty());
        }
        r
    }

    /// The entry index holding an IP, if any.
    fn find(&self, ip: &str) -> (r: Option<usize>)
        ensures
            match r {
                Some(i) => i < self.spec_len() && self.keys()[i as int] == ip@,
                None => !self.contains_key(ip@),
            },
    {
        let n = self.entries.len();
        let mut i: usize = 0;
        proof {
            assert(self.keys().len() == n);
        }
        while i < n
            invariant
                n == self.spec_len(),
                i <= n,
                forall|j: int| 0 <= j < i ==> self.keys()[j] != ip@,
            decreases n - i,
        {
            proof {
                assert(self.keys()[i as int] == self.entries@[i as int].0@);
            }
            if str_eq(self.entries[i].0.as_str(), ip) {
                return Some(i);
            }
            i = i + 1;
        }
        proof {
            if self.contains_key(ip@) {
                let j = choose|j: int| 0 <= j < self.keys().len() && self.keys()[j] == ip@;
                assert(false);
            }
        }
        None
    }

    pub fn len(&self) -> (r: usize)
        ensures
            r == self.spec_len(),
    {
        proof {
            assert(self.keys().len() == self.entries@.len());
        }
        self.entries.len()
    }

    /// The IP text at an entry position.
    pub fn key_at(&self, i: usize) -> (r: &String)
        requires
            i < self.spec_len(),
        ensures
            r@ == self.keys()[i as int],
    {
        proof {
            assert(self.keys()[i as int] == self.entries@[i as int].0@);
        }
        &self.entries[i].0
    }

    /// The counters at an entry position.
    pub fn stats_at(&self, i: usize) -> (r: TrafficStats)
        requires
            i < self.spec_len(),
        ensures
            r == self.stats_seq()[i as int],
    {
        proof {
            assert(self.stats_seq()[i as int] == self.entries@[i as int].1);
        }
        self.entries[i].1
    }

    /// The counters held for an IP, if present.
    pub fn get(&self, ip: &str) -> (r: Option<TrafficStats>)
        requires
            self.wf(),
        ensures
            r is Some <==> self@.contains_key(ip@),
            r is Some ==> r.unwrap() == self@[ip@],
    {
        match self.find(ip) {
            Some(i) => {
                proof {
                    self.lemma_entry_view(i as int);
                }
                Some(self.entries[i].1)
            },
            None => None,
        }
    }

    /// Inserts or replaces the counters for an IP. A new IP goes to
    /// the end of the entry order; a present one keeps its place.
    pub fn put(&mut self, ip: &str, v: TrafficStats)
        requires
            old(self).wf(),
        ensures
            final(self).wf(),
            final(self)@ =~= old(self)@.insert(ip@, v),
            final(self).keys() == if old(self).contains_key(ip@) {
                old(self).keys()
            } else {
                old(self).keys().push(ip@)
            },
    {
        let found = self.find(ip);
        match found {
            Some(i) => {
                proof {
                    self.lemma_entry_view(i as int);
                }
                let ghost old_snap = *self;
                let ip_owned = String::from_str(ip);
                self.entries.set(i, (ip_owned, v));
                proof {
                    assert(self.keys() =~= old_snap.keys());
                    assert(self.stats_seq() =~= old_snap.stats_seq().update(i as int, v));
                    assert forall|k: Seq<char>| self@.contains_key(k) implies old_snap@.insert(
                        ip@,
                        v,
                    ).contains_key(k) by {}
                    assert forall|k: Seq<char>|
                        #[trigger] self@.contains_key(k) && old_snap@.insert(
                            ip@,
                            v,
                        ).contains_key(k) implies self@[k] == old_snap@.insert(ip@, v)[k] by {
                        let j = self.key_index(k);
                        assert(0 <= j < self.keys().len() && self.keys()[j] == k);
                        self.lemma_entry_view(j);
                        if k == ip@ {
                            assert(j == i);
                        } else {
                            assert(j != i);
                            old_snap.lemma_entry_view(j);
                        }
                    }
                    assert(self@ =~= old_snap@.insert(ip@, v));
                }
            },
            None => {
                let ghost old_snap = *self;
                let ip_owned = String::from_str(ip);
                self.entries.push((ip_owned, v));
                proof {
                    assert(self.keys() =~= old_snap.keys().push(ip@));
                    assert(self.stats_seq() =~= old_snap.stats_seq().push(v));
                    assert(self.wf());
                    assert forall|k: Seq<char>|
                        old_snap@.insert(ip@, v).contains_key(k) implies self@.contains_key(k) by {
                        if k == ip@ {
                            assert(self.keys()[self.keys().len() - 1] == ip@);
                        } else {
                            let j = choose|j: int|
                                0 <= j < old_snap.keys().len() && old_snap.keys()[j] == k;
                            assert(self.keys()[j] == k);
                        }
                    }
                    assert forall|k: Seq<char>|
                        self@.contains_key(k) implies old_snap@.insert(ip@, v).contains_key(k) by {
                        let j = choose|j: int| 0 <= j < self.keys().len() && self.keys()[j] == k;
                        if j == self.keys().len() - 1 {
                            assert(k == ip@);
                        } else {
                            assert(old_snap.keys()[j] == k);
                        }
                    }
                    assert forall|k: Seq<char>|
                        #[trigger] self@.contains_key(k) && old_snap@.insert(
                            ip@,
                            v,
                        ).contains_key(k) implies self@[k] == old_snap@.insert(ip@, v)[k] by {
                        let j = self.key_index(k);
                        assert(0 <= j < self.keys().len() && self.keys()[j] == k);
                        self.lemma_entry_view(j);
                        if k == ip@ {
                            assert(j == self.keys().len() - 1);
                        } else {
                            assert(j < self.keys().len() - 1);
                            assert(old_snap.keys()[j] == k);
                            old_snap.lemma_entry_view(j);
                        }
                    }
                    assert(self@ =~= old_snap@.insert(ip@, v));
                }
            },
        }
    }

    /// What an IP maps to, or all-zero counters when absent.
    pub open spec fn spec_get_or_zero(self, k: Seq<char>) -> TrafficStats {
        if self@.contains_key(k) {
            self@[k]
        } else {
            TrafficStats::spec_zero()
        }
    }

    /// Adds a delta into the counters for an IP, creating a zeroed
    /// entry first when the IP is new.
    pub fn add_assign(&mut self, ip: &str, delta: &TrafficStats)
        requires
            old(self).wf(),
        ensures
            final(self).wf(),
            final(self)@ =~= old(self)@.insert(
                ip@,
                TrafficStats::spec_add(old(self).spec_get_or_zero(ip@), *delta),
            ),
            final(self).keys() == if old(self).contains_key(ip@) {
                old(self).keys()
            } else {
                old(self).keys().push(ip@)
            },
    {
        let cur = match self.get(ip) {
            Some(s) => s,
            None => TrafficStats::zero(),
        };
        let summed = cur.add(delta);
        self.put(ip, summed);
    }
}

} // verus!
