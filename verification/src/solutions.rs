//! The three admission policies of the readers-writers problem.
//!
//! Each policy is a state machine over the shared access gate (and, for
//! write-preferring and fair service, its extra bookkeeping): a scheduler
//! value holds the gates and counters, and each operation is one atomic
//! decision step of the policy — the work an operator's task does while it
//! holds the policy's counter lock. A `try_*` step either admits the
//! caller and steps the state, or admits nothing and leaves the state as
//! it was: a task that finds its step refused blocks and retries it when
//! the state next changes, which is the condition-variable loop of the
//! classical implementation.
//!
//! The contracts tie every admission and release to the transition
//! relation of [`crate::model`], so the laws proved there — mutual
//! exclusion above all — hold of every sequence of steps a run of these
//! schedulers can take.

use vstd::prelude::*;

use crate::model::core_active;
use crate::model::core_apply;
use crate::model::core_enabled;
use crate::model::core_init;
use crate::model::core_inv;
use crate::model::fair_apply;
use crate::model::fair_enabled;
use crate::model::fair_init;
use crate::model::CoreState;
use crate::model::FairState;
use crate::reports::Action;
use crate::semaphore::signal;
use crate::semaphore::wait;
use crate::semaphore::BinarySemaphore;

verus! {

broadcast use {
    vstd::set::axiom_set_insert_len,
    vstd::set::axiom_set_remove_len,
    vstd::set_lib::lemma_set_empty_equivalency_len,
};

/// What every policy maintains beyond the access invariant: the permit
/// is free exactly when nobody is active.
pub open spec fn tight_gate(s: CoreState) -> bool {
    &&& core_inv(s)
    &&& s.readers.is_empty() && s.writer is None ==> s.avail
}

/// The read-preferring policy: one access gate and a reader count.
///
/// An arriving reader is admitted whenever any reader is already active,
/// whatever writers may be waiting — the policy's defining weakness: a
/// stream of overlapping readers starves writers indefinitely.
pub struct ReadPreferring {
    access: BinarySemaphore,
    n_readers: u32,
    readers: Ghost<Set<u32>>,
    writer: Ghost<Option<u32>>,
}

impl View for ReadPreferring {
    type V = CoreState;

    closed spec fn view(&self) -> CoreState {
        CoreState {
            avail: self.access.spec_available(),
            readers: self.readers@,
            writer: self.writer@,
        }
    }
}

impl ReadPreferring {
    /// The counters match the admitted sets and the permit is tight.
    pub closed spec fn inv(&self) -> bool {
        &&& self.n_readers as nat == self.readers@.len()
        &&& tight_gate(self@)
    }

    /// A fresh scheduler: the permit available, nobody active.
    pub fn new() -> (s: ReadPreferring)
        ensures
            s.inv(),
            s@ == core_init(),
    {
        let s = ReadPreferring {
            access: BinarySemaphore::new(true),
            n_readers: 0,
            readers: Ghost(Set::empty()),
            writer: Ghost(None),
        };
        proof {
            assert(s@ =~~= core_init());
        }
        s
    }

    /// One reader's admission attempt: joins the active readers if any are
    /// active already or the permit is free (the first reader consumes it).
    pub fn try_start_read(&mut self, op: u32) -> (admitted: bool)
        requires
            old(self).inv(),
            !core_active(old(self)@, op),
            old(self)@.readers.len() < u32::MAX,
        ensures
            final(self).inv(),
            admitted == core_enabled(old(self)@, op, Action::StartRead),
            admitted ==> final(self)@ == core_apply(old(self)@, op, Action::StartRead),
            !admitted ==> final(self)@ == old(self)@,
    {
        if self.n_readers > 0 {
            proof {
                assert(!self.readers@.is_empty()) by {
                    if self.readers@.is_empty() {
                        assert(self.readers@.len() == 0);
                    }
                }
            }
            self.n_readers = self.n_readers + 1;
            self.readers = Ghost(self.readers@.insert(op));
            proof {
                assert(self@ =~~= core_apply(old(self)@, op, Action::StartRead));
            }
            true
        } else {
            let acquired = self.access.try_wait();
            if acquired {
                self.n_readers = 1;
                self.readers = Ghost(self.readers@.insert(op));
                proof {
                    assert(self@ =~~= core_apply(old(self)@, op, Action::StartRead));
                }
                true
            } else {
                proof {
                    assert(self@ =~~= old(self)@);
                }
                false
            }
        }
    }

    /// One reader's release: leaves the active readers, and the last one
    /// out returns the permit.
    pub fn end_read(&mut self, op: u32)
        requires
            old(self).inv(),
            old(self)@.readers.contains(op),
        ensures
            final(self).inv(),
            final(self)@ == core_apply(old(self)@, op, Action::EndRead),
    {
        proof {
            assert(self.readers@.len() > 0);
        }
        self.n_readers = self.n_readers - 1;
        self.readers = Ghost(self.readers@.remove(op));
        if self.n_readers == 0 {
            signal(&mut self.access);
        } else {
            proof {
                assert(!self.readers@.is_empty()) by {
                    if self.readers@.is_empty() {
                        assert(self.readers@.len() == 0);
                    }
                }
            }
        }
        proof {
            assert(self@ =~~= core_apply(old(self)@, op, Action::EndRead));
        }
    }

    /// One writer's admission attempt: takes the permit if it is free.
    pub fn try_start_write(&mut self, op: u32) -> (admitted: bool)
        requires
            old(self).inv(),
        ensures
            final(self).inv(),
            admitted == core_enabled(old(self)@, op, Action::StartWrite),
            admitted ==> final(self)@ == core_apply(old(self)@, op, Action::StartWrite),
            !admitted ==> final(self)@ == old(self)@,
    {
        let acquired = self.access.try_wait();
        if acquired {
            self.writer = Ghost(Some(op));
            proof {
                assert(self@ =~~= core_apply(old(self)@, op, Action::StartWrite));
            }
            true
        } else {
            proof {
                assert(self@ =~~= old(self)@);
            }
            false
        }
    }

    /// One writer's release: returns the permit.
    pub fn end_write(&mut self, op: u32)
        requires
            old(self).inv(),
            old(self)@.writer == Some(op),
        ensures
            final(self).inv(),
            final(self)@ == core_apply(old(self)@, op, Action::EndWrite),
    {
        self.writer = Ghost(None);
        signal(&mut self.access);
        proof {
            assert(self@ =~~= core_apply(old(self)@, op, Action::EndWrite));
        }
    }
}

/// The write-preferring policy: the access gate and reader count of
/// read-preferring, plus a reader-admission gate that the first waiting
/// writer closes and the last finishing writer reopens.
///
/// A reader is admitted only while no writer is waiting or active — the
/// dual weakness: a stream of writers starves readers indefinitely.
pub struct WritePreferring {
    access: BinarySemaphore,
    can_reader_acquire: BinarySemaphore,
    n_readers: u32,
    n_writers: u32,
    readers: Ghost<Set<u32>>,
    writer: Ghost<Option<u32>>,
}

impl View for WritePreferring {
    type V = CoreState;

    closed spec fn view(&self) -> CoreState {
        CoreState {
            avail: self.access.spec_available(),
            readers: self.readers@,
            writer: self.writer@,
        }
    }
}

impl WritePreferring {
    /// How many writers are waiting or active.
    pub closed spec fn spec_waiting_writers(&self) -> u32 {
        self.n_writers
    }

    /// The counters match the admitted sets, the access gate is tight, and
    /// the reader gate is open exactly while no writer is around.
    pub closed spec fn inv(&self) -> bool {
        &&& self.n_readers as nat == self.readers@.len()
        &&& tight_gate(self@)
        &&& self.can_reader_acquire.spec_available() <==> self.n_writers == 0
    }

    /// A fresh scheduler: both gates open, nobody active or waiting.
    pub fn new() -> (s: WritePreferring)
        ensures
            s.inv(),
            s@ == core_init(),
            s.spec_waiting_writers() == 0,
    {
        let s = WritePreferring {
            access: BinarySemaphore::new(true),
            can_reader_acquire: BinarySemaphore::new(true),
            n_readers: 0,
            n_writers: 0,
            readers: Ghost(Set::empty()),
            writer: Ghost(None),
        };
        proof {
            assert(s@ =~~= core_init());
        }
        s
    }

    /// One reader's admission attempt: passes the reader gate (held only
    /// for the moment of admission, never across it), then joins the
    /// active readers as under read-preferring. Refused while any writer
    /// is waiting or active.
    pub fn reader_try_start(&mut self, op: u32) -> (admitted: bool)
        requires
            old(self).inv(),
            !core_active(old(self)@, op),
            old(self)@.readers.len() < u32::MAX,
        ensures
            final(self).inv(),
            final(self).spec_waiting_writers() == old(self).spec_waiting_writers(),
            admitted == (old(self).spec_waiting_writers() == 0 && core_enabled(
                old(self)@,
                op,
                Action::StartRead,
            )),
            admitted ==> final(self)@ == core_apply(old(self)@, op, Action::StartRead),
            !admitted ==> final(self)@ == old(self)@,
    {
        if !self.can_reader_acquire.available() {
            proof {
                assert(self@ =~~= old(self)@);
            }
            return false;
        }
        wait(&mut self.can_reader_acquire);
        let admitted = if self.n_readers > 0 {
            proof {
                assert(!self.readers@.is_empty()) by {
                    if self.readers@.is_empty() {
                        assert(self.readers@.len() == 0);
                    }
                }
            }
            self.n_readers = self.n_readers + 1;
            self.readers = Ghost(self.readers@.insert(op));
            true
        } else {
            let acquired = self.access.try_wait();
            if acquired {
                self.n_readers = 1;
                self.readers = Ghost(self.readers@.insert(op));
                true
            } else {
                false
            }
        };
        signal(&mut self.can_reader_acquire);
        proof {
            if admitted {
                assert(self@ =~~= core_apply(old(self)@, op, Action::StartRead));
            } else {
                assert(self@ =~~= old(self)@);
            }
        }
        admitted
    }

    /// One reader's release, as under read-preferring.
    pub fn end_read(&mut self, op: u32)
        requires
            old(self).inv(),
            old(self)@.readers.contains(op),
        ensures
            final(self).inv(),
            final(self).spec_waiting_writers() == old(self).spec_waiting_writers(),
            final(self)@ == core_apply(old(self)@, op, Action::EndRead),
    {
        proof {
            assert(self.readers@.len() > 0);
        }
        self.n_readers = self.n_readers - 1;
        self.readers = Ghost(self.readers@.remove(op));
        if self.n_readers == 0 {
            signal(&mut self.access);
        } else {
            proof {
                assert(!self.readers@.is_empty()) by {
                    if self.readers@.is_empty() {
                        assert(self.readers@.len() == 0);
                    }
                }
            }
        }
        proof {
            assert(self@ =~~= core_apply(old(self)@, op, Action::EndRead));
        }
    }

    /// One writer announces itself; the first waiting writer closes the
    /// reader gate. The permit itself is still to be acquired.
    pub fn writer_request(&mut self) -> (first: bool)
        requires
            old(self).inv(),
            old(self).spec_waiting_writers() < u32::MAX,
        ensures
            final(self).inv(),
            final(self).spec_waiting_writers() == old(self).spec_waiting_writers() + 1,
            first == (old(self).spec_waiting_writers() == 0),
            final(self)@ == old(self)@,
    {
        self.n_writers = self.n_writers + 1;
        let first = self.n_writers == 1;
        if first {
            wait(&mut self.can_reader_acquire);
        }
        proof {
            assert(self@ =~~= old(self)@);
        }
        first
    }

    /// One waiting writer's admission attempt: takes the permit if free.
    pub fn writer_try_start(&mut self, op: u32) -> (admitted: bool)
        requires
            old(self).inv(),
        ensures
            final(self).inv(),
            final(self).spec_waiting_writers() == old(self).spec_waiting_writers(),
            admitted == core_enabled(old(self)@, op, Action::StartWrite),
            admitted ==> final(self)@ == core_apply(old(self)@, op, Action::StartWrite),
            !admitted ==> final(self)@ == old(self)@,
    {
        let acquired = self.access.try_wait();
        if acquired {
            self.writer = Ghost(Some(op));
            proof {
                assert(self@ =~~= core_apply(old(self)@, op, Action::StartWrite));
            }
            true
        } else {
            proof {
                assert(self@ =~~= old(self)@);
            }
            false
        }
    }

    /// One writer's release of the permit.
    pub fn end_write(&mut self, op: u32)
        requires
            old(self).inv(),
            old(self)@.writer == Some(op),
        ensures
            final(self).inv(),
            final(self).spec_waiting_writers() == old(self).spec_waiting_writers(),
            final(self)@ == core_apply(old(self)@, op, Action::EndWrite),
    {
        self.writer = Ghost(None);
        signal(&mut self.access);
        proof {
            assert(self@ =~~= core_apply(old(self)@, op, Action::EndWrite));
        }
    }

    /// One writer withdraws; the last one out reopens the reader gate.
    pub fn writer_leave(&mut self) -> (last: bool)
        requires
            old(self).inv(),
            old(self).spec_waiting_writers() > 0,
        ensures
            final(self).inv(),
            final(self).spec_waiting_writers() == old(self).spec_waiting_writers() - 1,
            last == (final(self).spec_waiting_writers() == 0),
            final(self)@ == old(self)@,
    {
        self.n_writers = self.n_writers - 1;
        let last = self.n_writers == 0;
        if last {
            signal(&mut self.can_reader_acquire);
        }
        proof {
            assert(self@ =~~= old(self)@);
        }
        last
    }
}

/// The fair-service policy: the access gate and reader count, plus a
/// FIFO ticket queue shared by both roles.
///
/// Every requester takes a place in the queue; only the operator at its
/// head may be admitted. A reader releases its ticket the moment it has
/// secured its share of read access (so queued readers overlap); a writer
/// keeps the ticket until it holds the permit exclusively. No operator
/// that requested later is ever admitted before one that requested
/// earlier, which bounds every operator's wait.
pub struct FairService {
    access: BinarySemaphore,
    n_readers: u32,
    queue: Vec<u32>,
    readers: Ghost<Set<u32>>,
    writer: Ghost<Option<u32>>,
    requested: Ghost<Set<u32>>,
}

impl View for FairService {
    type V = FairState;

    closed spec fn view(&self) -> FairState {
        FairState {
            core: CoreState {
                avail: self.access.spec_available(),
                readers: self.readers@,
                writer: self.writer@,
            },
            queue: self.queue@,
            requested: self.requested@,
        }
    }
}

impl FairService {
    /// The counters match the admitted sets and the permit is tight.
    pub closed spec fn inv(&self) -> bool {
        &&& self.n_readers as nat == self.readers@.len()
        &&& tight_gate(self@.core)
    }

    /// A fresh scheduler: the permit available, the queue empty.
    pub fn new() -> (s: FairService)
        ensures
            s.inv(),
            s@ == fair_init(),
    {
        let s = FairService {
            access: BinarySemaphore::new(true),
            n_readers: 0,
            queue: Vec::new(),
            readers: Ghost(Set::empty()),
            writer: Ghost(None),
            requested: Ghost(Set::empty()),
        };
        proof {
            assert(s@ =~~= fair_init());
        }
        s
    }

    /// One operator requests admission and takes the next ticket. Each
    /// operator requests once.
    pub fn request(&mut self, op: u32)
        requires
            old(self).inv(),
            !old(self)@.requested.contains(op),
        ensures
            final(self).inv(),
            final(self)@ == fair_apply(old(self)@, op, Action::RequestRead),
            final(self)@ == fair_apply(old(self)@, op, Action::RequestWrite),
    {
        self.queue.push(op);
        self.requested = Ghost(self.requested@.insert(op));
        proof {
            assert(self@ =~~= fair_apply(old(self)@, op, Action::RequestRead));
            assert(self@ =~~= fair_apply(old(self)@, op, Action::RequestWrite));
        }
    }

    /// One queued reader's admission attempt: admitted when its ticket is
    /// first in the queue and the reader group holds or can take the
    /// permit; its ticket is then released at once.
    pub fn reader_try_start(&mut self, op: u32) -> (admitted: bool)
        requires
            old(self).inv(),
            !core_active(old(self)@.core, op),
            old(self)@.core.readers.len() < u32::MAX,
        ensures
            final(self).inv(),
            admitted == fair_enabled(old(self)@, op, Action::StartRead),
            admitted ==> final(self)@ == fair_apply(old(self)@, op, Action::StartRead),
            !admitted ==> final(self)@ == old(self)@,
    {
        if self.queue.len() == 0 {
            proof {
                assert(self@ =~~= old(self)@);
            }
            return false;
        }
        let head = self.queue[0];
        if head != op {
            proof {
                assert(self@ =~~= old(self)@);
            }
            return false;
        }
        let admitted = if self.n_readers > 0 {
            proof {
                assert(!self.readers@.is_empty()) by {
                    if self.readers@.is_empty() {
                        assert(self.readers@.len() == 0);
                    }
                }
            }
            self.n_readers = self.n_readers + 1;
            self.readers = Ghost(self.readers@.insert(op));
            true
        } else {
            let acquired = self.access.try_wait();
            if acquired {
                self.n_readers = 1;
                self.readers = Ghost(self.readers@.insert(op));
                true
            } else {
                false
            }
        };
        if admitted {
            self.queue.remove(0);
            proof {
                assert(self.queue@ =~= old(self).queue@.drop_first());
                assert(self@ =~~= fair_apply(old(self)@, op, Action::StartRead));
            }
        } else {
            proof {
                assert(self@ =~~= old(self)@);
            }
        }
        admitted
    }

    /// One queued writer's admission attempt: admitted when its ticket is
    /// first in the queue and the permit is free; it releases the ticket
    /// only then, already holding exclusive access.
    pub fn writer_try_start(&mut self, op: u32) -> (admitted: bool)
        requires
            old(self).inv(),
        ensures
            final(self).inv(),
            admitted == fair_enabled(old(self)@, op, Action::StartWrite),
            admitted ==> final(self)@ == fair_apply(old(self)@, op, Action::StartWrite),
            !admitted ==> final(self)@ == old(self)@,
    {
        if self.queue.len() == 0 {
            proof {
                assert(self@ =~~= old(self)@);
            }
            return false;
        }
        let head = self.queue[0];
        if head != op {
            proof {
                assert(self@ =~~= old(self)@);
            }
            return false;
        }
        let acquired = self.access.try_wait();
        if acquired {
            self.writer = Ghost(Some(op));
            self.queue.remove(0);
            proof {
                assert(self.queue@ =~= old(self).queue@.drop_first());
                assert(self@ =~~= fair_apply(old(self)@, op, Action::StartWrite));
            }
            true
        } else {
            proof {
                assert(self@ =~~= old(self)@);
            }
            false
        }
    }

    /// One reader's release: the last one out returns the permit.
    pub fn end_read(&mut self, op: u32)
        requires
            old(self).inv(),
            old(self)@.core.readers.contains(op),
        ensures
            final(self).inv(),
            final(self)@ == fair_apply(old(self)@, op, Action::EndRead),
    {
        proof {
            assert(self.readers@.len() > 0);
        }
        self.n_readers = self.n_readers - 1;
        self.readers = Ghost(self.readers@.remove(op));
        if self.n_readers == 0 {
            signal(&mut self.access);
        } else {
            proof {
                assert(!self.readers@.is_empty()) by {
                    if self.readers@.is_empty() {
                        assert(self.readers@.len() == 0);
                    }
                }
            }
        }
        proof {
            assert(self@ =~~= fair_apply(old(self)@, op, Action::EndRead));
        }
    }

    /// One writer's release: returns the permit.
    pub fn end_write(&mut self, op: u32)
        requires
            old(self).inv(),
            old(self)@.core.writer == Some(op),
        ensures
            final(self).inv(),
            final(self)@ == fair_apply(old(self)@, op, Action::EndWrite),
    {
        self.writer = Ghost(None);
        signal(&mut self.access);
        proof {
            assert(self@ =~~= fair_apply(old(self)@, op, Action::EndWrite));
        }
    }
}

} // verus!
