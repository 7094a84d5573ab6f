//! Bounded admission of concurrent probes over an input stream.
//!
//! The scheduler decides; whoever drives it reads input, starts the probes
//! and reports each one's completion. Every admitted line gets a ticket, in
//! arrival order. At most `capacity` tickets are in flight at once: while
//! that many are out no more input is read, which is the backpressure on a
//! fast input. Once the input is closed the scheduler waits for every ticket
//! in flight before it reports that it is finished.

use vstd::prelude::*;

verus! {

/// What the driver does next.
#[derive(PartialEq, Eq, Structural, Debug, Clone, Copy)]
pub enum Step {
    /// Read one more input line and accept it.
    ReadInput,
    /// Wait for a probe in flight to complete: every slot is taken, or no
    /// more input is taken while probes are in flight.
    AwaitCompletion,
    /// No more input is taken (it ended, or every ticket was issued) and
    /// every admitted probe has completed.
    Finished,
}

pub struct Scheduler {
    cap: usize,
    outstanding: Vec<u64>,
    next_ticket: u64,
    input_closed: bool,
    completed: Ghost<Set<u64>>,
}

impl Scheduler {
    /// The most probes that may be in flight at once.
    pub closed spec fn capacity(&self) -> nat {
        self.cap as nat
    }

    /// The tickets of the probes in flight.
    pub closed spec fn in_flight(&self) -> Set<u64> {
        self.outstanding@.to_set()
    }

    /// The tickets whose probes have completed.
    pub closed spec fn completed(&self) -> Set<u64> {
        self.completed@
    }

    /// How many lines have been admitted; tickets are `0..admitted()`.
    pub closed spec fn admitted(&self) -> nat {
        self.next_ticket as nat
    }

    /// Whether the input has ended.
    pub closed spec fn closed(&self) -> bool {
        self.input_closed
    }

    pub closed spec fn wf(&self) -> bool {
        &&& self.cap > 0
        &&& self.outstanding@.len() <= self.cap
        &&& self.outstanding@.no_duplicates()
        &&& forall|t: u64| #[trigger]
            self.outstanding@.contains(t) || self.completed@.contains(t) <==> t < self.next_ticket
        &&& forall|t: u64| #[trigger]
            self.outstanding@.contains(t) ==> !self.completed@.contains(t)
    }

    /// Whether another line can be admitted now.
    pub open spec fn has_free_slot(&self) -> bool {
        !self.closed() && self.in_flight().len() < self.capacity() && self.admitted() < u64::MAX
    }

    /// The step that the state calls for.
    pub open spec fn step_spec(&self) -> Step {
        if self.has_free_slot() {
            Step::ReadInput
        } else if self.in_flight().is_empty() && (self.closed() || self.admitted() == u64::MAX) {
            Step::Finished
        } else {
            Step::AwaitCompletion
        }
    }

    proof fn lemma_in_flight_len(&self)
        requires
            self.wf(),
        ensures
            self.in_flight().len() == self.outstanding@.len(),
            self.in_flight().finite(),
    {
        self.outstanding@.unique_seq_to_set();
    }

    /// A scheduler that admits up to `cap` probes at once.
    pub fn new(cap: usize) -> (r: Scheduler)
        requires
            cap > 0,
        ensures
            r.wf(),
            r.capacity() == cap,
            r.in_flight().is_empty(),
            r.completed().is_empty(),
            r.admitted() == 0,
            !r.closed(),
    {
        let r = Scheduler {
            cap,
            outstanding: Vec::new(),
            next_ticket: 0,
            input_closed: false,
            completed: Ghost(Set::empty()),
        };
        proof {
            r.lemma_in_flight_len();
        }
        r
    }

    /// The next thing to do.
    pub fn next_step(&self) -> (r: Step)
        requires
            self.wf(),
        ensures
            r == self.step_spec(),
    {
        proof {
            self.lemma_in_flight_len();
        }
        if !self.input_closed && self.outstanding.len() < self.cap && self.next_ticket < u64::MAX {
            Step::ReadInput
        } else if self.outstanding.len() == 0 && (self.input_closed || self.next_ticket
            == u64::MAX) {
            Step::Finished
        } else {
            Step::AwaitCompletion
        }
    }

    /// Admits the line just read: it gets the next ticket and counts as in
    /// flight. Nothing is admitted where the state does not allow it.
    pub fn accept_line(&mut self) -> (r: Option<u64>)
        requires
            old(self).wf(),
        ensures
            final(self).wf(),
            final(self).capacity() == old(self).capacity(),
            final(self).closed() == old(self).closed(),
            final(self).completed() == old(self).completed(),
            r is Some <==> old(self).has_free_slot(),
            r matches Some(t) ==> t == old(self).admitted() && final(self).admitted()
                == old(self).admitted() + 1 && final(self).in_flight() == old(self).in_flight().insert(t),
            r is None ==> final(self).admitted() == old(self).admitted() && final(self).in_flight()
                == old(self).in_flight(),
    {
        proof {
            self.lemma_in_flight_len();
        }
        if self.input_closed || self.outstanding.len() >= self.cap || self.next_ticket == u64::MAX {
            return None;
        }
        let t = self.next_ticket;
        let ghost before = self.outstanding@;
        assert(!before.contains(t));
        self.outstanding.push(t);
        self.next_ticket = t + 1;
        proof {
            assert(self.outstanding@ == before.push(t));
            assert forall|i: int, j: int|
                0 <= i < self.outstanding@.len() && 0 <= j < self.outstanding@.len() && i != j
                implies self.outstanding@[i] != self.outstanding@[j] by {
                if i == before.len() {
                    assert(before.contains(self.outstanding@[j]));
                } else if j == before.len() {
                    assert(before.contains(self.outstanding@[i]));
                }
            }
            assert forall|u: u64| #[trigger] self.outstanding@.contains(u) <==> before.contains(u)
                || u == t by {
                if self.outstanding@.contains(u) && u != t {
                    let k = choose|k: int| 0 <= k < self.outstanding@.len() && self.outstanding@[k] == u;
                    assert(before[k] == u);
                }
                if before.contains(u) {
                    let k = choose|k: int| 0 <= k < before.len() && before[k] == u;
                    assert(self.outstanding@[k] == u);
                }
                if u == t {
                    assert(self.outstanding@[before.len() as int] == t);
                }
            }
            assert(self.outstanding@.to_set() =~= before.to_set().insert(t));
        }
        Some(t)
    }

    /// The input has ended: no more lines will be admitted.
    pub fn close_input(&mut self)
        requires
            old(self).wf(),
        ensures
            final(self).wf(),
            final(self).closed(),
            final(self).capacity() == old(self).capacity(),
            final(self).in_flight() == old(self).in_flight(),
            final(self).completed() == old(self).completed(),
            final(self).admitted() == old(self).admitted(),
    {
        self.input_closed = true;
    }

    /// The probe with `ticket` has completed. Returns whether it was in
    /// flight: a ticket completes once, and its slot is then free.
    pub fn complete(&mut self, ticket: u64) -> (r: bool)
        requires
            old(self).wf(),
        ensures
            final(self).wf(),
            final(self).capacity() == old(self).capacity(),
            final(self).closed() == old(self).closed(),
            final(self).admitted() == old(self).admitted(),
            r == old(self).in_flight().contains(ticket),
            r ==> !old(self).completed().contains(ticket) && final(self).in_flight() == old(
                self,
            ).in_flight().remove(ticket) && final(self).completed() == old(
                self,
            ).completed().insert(ticket),
            !r ==> final(self).in_flight() == old(self).in_flight() && final(self).completed()
                == old(self).completed(),
    {
        let mut i: usize = 0;
        while i < self.outstanding.len() && self.outstanding[i] != ticket
            invariant
                i <= self.outstanding@.len(),
                forall|k: int| 0 <= k < i ==> self.outstanding@[k] != ticket,
            decreases self.outstanding@.len() - i,
        {
            i = i + 1;
        }
        if i == self.outstanding.len() {
            assert(!self.outstanding@.contains(ticket));
            return false;
        }
        let ghost before = self.outstanding@;
        let ghost idx = i as int;
        self.outstanding.remove(i);
        self.completed = Ghost(self.completed@.insert(ticket));
        proof {
            assert(before[idx] == ticket);
            assert(before.contains(ticket));
            assert forall|u: u64| #[trigger] self.outstanding@.contains(u) <==> before.contains(u)
                && u != ticket by {
                if self.outstanding@.contains(u) {
                    let k = choose|k: int| 0 <= k < self.outstanding@.len() && self.outstanding@[k] == u;
                    if k < idx {
                        assert(before[k] == u);
                        assert(k != idx);
                    } else {
                        assert(before[k + 1] == u);
                        assert(k + 1 != idx);
                    }
                }
                if before.contains(u) && u != ticket {
                    let k = choose|k: int| 0 <= k < before.len() && before[k] == u;
                    assert(k != idx);
                    if k < idx {
                        assert(self.outstanding@[k] == u);
                    } else {
                        assert(self.outstanding@[k - 1] == u);
                    }
                }
            }
            assert forall|a: int, b: int|
                0 <= a < self.outstanding@.len() && 0 <= b < self.outstanding@.len() && a != b
                implies self.outstanding@[a] != self.outstanding@[b] by {
                let a2 = if a < idx { a } else { a + 1 };
                let b2 = if b < idx { b } else { b + 1 };
                assert(self.outstanding@[a] == before[a2]);
                assert(self.outstanding@[b] == before[b2]);
            }
            assert(self.outstanding@.to_set() =~= before.to_set().remove(ticket));
        }
        true
    }
}

/// The number of probes in flight never exceeds the capacity.
pub proof fn lemma_in_flight_within_capacity(s: &Scheduler)
    requires
        s.wf(),
    ensures
        s.in_flight().len() <= s.capacity(),
{
    s.lemma_in_flight_len();
}

/// Every ticket issued is either in flight or completed, never both; so once
/// the scheduler is finished, every admitted line has completed, and none
/// was abandoned.
pub proof fn lemma_every_ticket_accounted(s: &Scheduler)
    requires
        s.wf(),
    ensures
        forall|t: u64| t < s.admitted() <==> (s.in_flight().contains(t) || s.completed().contains(t)),
        s.in_flight().disjoint(s.completed()),
        s.step_spec() == Step::Finished ==> forall|t: u64| t < s.admitted() <==> s.completed().contains(t),
{
    assert forall|t: u64| t < s.admitted() <==> (s.in_flight().contains(t) || s.completed().contains(t)) by {
        assert(s.outstanding@.contains(t) || s.completed@.contains(t) <==> t < s.next_ticket);
    }
    assert forall|t: u64| s.in_flight().contains(t) implies !s.completed().contains(t) by {
        assert(s.outstanding@.contains(t));
    }
}

} // verus!
