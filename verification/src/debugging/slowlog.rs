//! A slow log.
//!
//! A command whose duration reaches the threshold gets an entry in a ring of
//! fixed capacity, the oldest evicted; a negative threshold switches logging
//! off. Ids increase and are not reused after a reset, so whoever polls the
//! log can tell new entries from old ones across resets.

use std::collections::VecDeque;
use vstd::prelude::*;
use vstd::string::*;

verus! {

#[derive(Debug, Clone, PartialEq)]
pub struct Entry {
    pub id: u64,
    pub cmd: String,
    pub duration_ns: u64,
}

impl View for Entry {
    type V = (u64, Seq<char>, u64);

    open spec fn view(&self) -> (u64, Seq<char>, u64) {
        (self.id, self.cmd@, self.duration_ns)
    }
}

/// The entries of a list, as values.
pub open spec fn entry_values(entries: Seq<Entry>) -> Seq<(u64, Seq<char>, u64)> {
    entries.map_values(|e: Entry| e@)
}

pub struct SlowLog {
    pub threshold_ns: i64,
    pub max_len: usize,
    /// Oldest first.
    pub ring: VecDeque<Entry>,
    pub next_id: u64,
}

impl SlowLog {
    /// The entries, oldest first.
    pub open spec fn entries(&self) -> Seq<(u64, Seq<char>, u64)> {
        entry_values(self.ring@)
    }

    /// The id that the next entry gets.
    pub open spec fn next(&self) -> u64 {
        self.next_id
    }

    /// At most `max_len` entries, with increasing ids below the next one.
    pub open spec fn well_formed(&self) -> bool {
        &&& self.entries().len() <= self.max_len
        &&& forall|i: int|
            0 <= i < self.entries().len() ==> (#[trigger] self.entries()[i]).0 < self.next()
        &&& forall|i: int, j: int|
            0 <= i < j < self.entries().len() ==> (#[trigger] self.entries()[i]).0 < (
            #[trigger] self.entries()[j]).0
    }

    pub fn new(threshold_ns: i64, max_len: usize) -> (log: SlowLog)
        ensures
            log.well_formed(),
            log.threshold_ns == threshold_ns,
            log.max_len == max_len,
            log.entries() == Seq::<(u64, Seq<char>, u64)>::empty(),
            log.next() == 0,
    {
        let log = SlowLog { threshold_ns, max_len, ring: VecDeque::new(), next_id: 0 };
        assert(log.entries() =~= Seq::empty());
        log
    }

    /// The duration is one to be logged.
    pub open spec fn is_slow(&self, duration_ns: u64) -> bool {
        self.threshold_ns >= 0 && duration_ns >= self.threshold_ns
    }

    /// The last `max_len` of the entries.
    pub open spec fn trimmed(&self, entries: Seq<(u64, Seq<char>, u64)>) -> Seq<
        (u64, Seq<char>, u64),
    > {
        if entries.len() > self.max_len {
            entries.skip(entries.len() - self.max_len)
        } else {
            entries
        }
    }

    /// Logs the command where its duration reaches the threshold.
    pub fn add(&mut self, cmd: &str, duration_ns: u64)
        requires
            old(self).well_formed(),
            old(self).next() < u64::MAX,
        ensures
            final(self).well_formed(),
            final(self).threshold_ns == old(self).threshold_ns,
            final(self).max_len == old(self).max_len,
            !old(self).is_slow(duration_ns) ==> final(self).entries() == old(self).entries()
                && final(self).next() == old(self).next(),
            old(self).is_slow(duration_ns) ==> final(self).entries() == old(self).trimmed(
                old(self).entries().push((old(self).next(), cmd@, duration_ns)),
            ) && final(self).next() == old(self).next() + 1,
    {
        if self.threshold_ns < 0 || duration_ns < self.threshold_ns as u64 {
            return ;
        }
        let ghost before = self.entries();
        let ghost whole = before.push((self.next_id, cmd@, duration_ns));
        let entry = Entry { id: self.next_id, cmd: cmd.to_owned(), duration_ns };
        let ghost r0 = self.ring@;
        let ghost e = entry;
        self.next_id = self.next_id + 1;
        self.ring.push_back(entry);
        proof {
            assert(entry_values(self.ring@) =~= whole) by {
                assert(self.ring@ == r0.push(e));
            }
            assert forall|i: int, j: int| 0 <= i < j < whole.len()
                implies (#[trigger] whole[i]).0 < (#[trigger] whole[j]).0 by {
                if j == before.len() {
                    assert(before[i].0 < self.next_id - 1);
                } else {
                    assert(before[i].0 < before[j].0);
                }
            }
        }
        if self.ring.len() > self.max_len {
            let ghost r1 = self.ring@;
            self.ring.pop_front();
            proof {
                assert(self.ring@ =~= r1.skip(1));
                assert(self.entries() =~= whole.skip(whole.len() - self.max_len)) by {
                    assert(whole.len() - self.max_len == 1);
                    assert forall|i: int| 0 <= i < self.entries().len()
                        implies #[trigger] self.entries()[i] == whole.skip(1)[i] by {
                        assert(entry_values(r1)[i + 1] == whole[i + 1]);
                    }
                }
                assert forall|i: int, j: int| 0 <= i < j < self.entries().len()
                    implies (#[trigger] self.entries()[i]).0 < (
                #[trigger] self.entries()[j]).0 by {
                    assert(whole[i + 1].0 < whole[j + 1].0);
                }
                assert forall|i: int| 0 <= i < self.entries().len()
                    implies (#[trigger] self.entries()[i]).0 < self.next_id by {
                    assert(self.entries()[i] == whole[i + 1]);
                }
            }
        }
    }

    /// Newest first, at most `n` entries.
    pub fn get(&self, n: usize) -> (r: Vec<Entry>)
        requires
            self.well_formed(),
        ensures
            r@.len() == (if n < self.entries().len() {
                n as nat
            } else {
                self.entries().len()
            }),
            forall|i: int|
                0 <= i < r@.len() ==> (#[trigger] r@[i])@ == self.entries()[self.entries().len() - 1
                    - i],
            forall|i: int, j: int|
                0 <= i < j < r@.len() ==> (#[trigger] r@[i]).id > (#[trigger] r@[j]).id,
    {
        let len = self.ring.len();
        let k = if n < len {
            n
        } else {
            len
        };
        let mut r: Vec<Entry> = Vec::new();
        for i in 0..k
            invariant
                len == self.ring@.len(),
                k <= len,
                r@.len() == i,
                forall|j: int|
                    0 <= j < i ==> (#[trigger] r@[j])@ == self.entries()[len - 1 - j],
        {
            let e = &self.ring[len - 1 - i];
            let copy = Entry { id: e.id, cmd: e.cmd.clone(), duration_ns: e.duration_ns };
            assert(copy@ == self.entries()[len - 1 - i]);
            r.push(copy);
        }
        proof {
            assert forall|i: int, j: int| 0 <= i < j < r@.len()
                implies (#[trigger] r@[i]).id > (#[trigger] r@[j]).id by {
                assert(r@[i]@ == self.entries()[len - 1 - i]);
                assert(r@[j]@ == self.entries()[len - 1 - j]);
                assert(self.entries()[len - 1 - j].0 < self.entries()[len - 1 - i].0);
            }
        }
        r
    }

    /// Drops all entries; ids keep increasing.
    pub fn reset(&mut self)
        requires
            old(self).well_formed(),
        ensures
            final(self).well_formed(),
            final(self).entries() == Seq::<(u64, Seq<char>, u64)>::empty(),
            final(self).next() == old(self).next(),
            final(self).threshold_ns == old(self).threshold_ns,
            final(self).max_len == old(self).max_len,
    {
        self.ring.clear();
        assert(self.entries() =~= Seq::empty());
    }

    pub fn len(&self) -> (n: usize)
        ensures
            n == self.entries().len(),
    {
        self.ring.len()
    }

    pub fn is_empty(&self) -> (b: bool)
        ensures
            b == (self.entries().len() == 0),
    {
        self.len() == 0
    }
}

} // verus!
