//! The bounded, append-only message log shared by all sessions.

use vstd::prelude::*;

verus! {

/// The `cap` most recent entries of `s`: all of them while `s` is short
/// enough, otherwise the suffix of length `cap` (the oldest entries are the
/// ones dropped).
pub open spec fn keep_last(s: Seq<Seq<char>>, cap: nat) -> Seq<Seq<char>> {
    if s.len() <= cap {
        s
    } else {
        s.subrange(s.len() - cap, s.len() as int)
    }
}

/// The contents of a log of capacity `cap` after appending `lines`, one by
/// one in order, to an initially empty log; each step is exactly what
/// `MessageLog::append` promises.
pub open spec fn log_of(cap: nat, lines: Seq<Seq<char>>) -> Seq<Seq<char>>
    decreases lines.len(),
{
    if lines.len() == 0 {
        Seq::empty()
    } else {
        keep_last(log_of(cap, lines.drop_last()).push(lines.last()), cap)
    }
}

/// Evicting the oldest entry after an append commutes with trimming first:
/// the state reached by appending to an already-trimmed log is the trim of
/// the whole history plus the new line.
proof fn lemma_keep_last_push(s: Seq<Seq<char>>, x: Seq<char>, cap: nat)
    requires
        cap >= 1,
    ensures
        keep_last(keep_last(s, cap).push(x), cap) == keep_last(s.push(x), cap),
{
    if s.len() <= cap {
    } else {
        assert(keep_last(keep_last(s, cap).push(x), cap) =~= keep_last(s.push(x), cap));
    }
}

/// Bounded-log law: after appending any sequence of lines to an initially
/// empty log, the log holds exactly the `cap` most recent of them, in order;
/// entries are evicted oldest first and nothing else is lost.
pub proof fn lemma_bounded_log(cap: nat, lines: Seq<Seq<char>>)
    requires
        cap >= 1,
    ensures
        log_of(cap, lines) == keep_last(lines, cap),
    decreases lines.len(),
{
    if lines.len() == 0 {
    } else {
        lemma_bounded_log(cap, lines.drop_last());
        lemma_keep_last_push(lines.drop_last(), lines.last(), cap);
        assert(lines.drop_last().push(lines.last()) =~= lines);
    }
}

/// An ordered, capacity-bounded sequence of formatted message lines.
/// `append` adds at the tail and evicts from the head once the bound is
/// exceeded (FIFO eviction); `snapshot` hands out a point-in-time copy.
pub struct MessageLog {
    capacity: usize,
    entries: Vec<String>,
}

impl View for MessageLog {
    type V = Seq<Seq<char>>;

    closed spec fn view(&self) -> Seq<Seq<char>> {
        self.entries.deep_view()
    }
}

impl MessageLog {
    /// The configured bound on the number of retained entries.
    pub closed spec fn capacity(&self) -> nat {
        self.capacity as nat
    }

    pub open spec fn wf(&self) -> bool {
        &&& self.capacity() >= 1
        &&& self@.len() <= self.capacity()
    }

    /// An empty log with the given bound.
    pub fn new(capacity: usize) -> (log: MessageLog)
        requires
            capacity >= 1,
        ensures
            log.wf(),
            log@ == Seq::<Seq<char>>::empty(),
            log.capacity() == capacity,
    {
        let log = MessageLog { capacity, entries: Vec::new() };
        proof {
            assert(log@ =~= Seq::<Seq<char>>::empty());
        }
        log
    }

    /// The number of retained entries.
    pub fn len(&self) -> (n: usize)
        ensures
            n == self@.len(),
    {
        self.entries.len()
    }

    /// Appends `line` at the tail; if the log then exceeds its capacity, the
    /// oldest entry is evicted.
    pub fn append(&mut self, line: String)
        requires
            old(self).wf(),
        ensures
            final(self).wf(),
            final(self).capacity() == old(self).capacity(),
            final(self)@ == keep_last(old(self)@.push(line@), old(self).capacity()),
    {
        let ghost pushed: Seq<Seq<char>> = old(self)@.push(line@);
        self.entries.push(line);
        proof {
            assert(self.entries.deep_view() =~= pushed);
        }
        if self.entries.len() > self.capacity {
            self.entries.remove(0);
            proof {
                assert(self.entries.deep_view() =~= pushed.subrange(
                    pushed.len() - self.capacity,
                    pushed.len() as int,
                ));
            }
        }
    }

    /// A point-in-time copy of the log contents, in order.
    pub fn snapshot(&self) -> (lines: Vec<String>)
        ensures
            lines.deep_view() == self@,
    {
        let mut lines: Vec<String> = Vec::new();
        let mut i: usize = 0;
        while i < self.entries.len()
            invariant
                i <= self.entries.len(),
                lines@.len() == i,
                forall|j: int| 0 <= j < i ==> lines@[j] == self.entries@[j],
            decreases self.entries.len() - i,
        {
            lines.push(self.entries[i].clone());
            i = i + 1;
        }
        proof {
            assert(lines@ =~= self.entries@);
        }
        lines
    }
}

} // verus!
