//! A lock for many readers or one writer. A writer that waits keeps new readers
//! out.
use vstd::prelude::*;

verus! {

/// Who holds the lock and how many writers wait for it.
#[derive(Clone, Copy, Debug, PartialEq, Eq, Structural)]
pub struct RwLock {
    /// The number of readers, or minus one for a writer.
    pub state: i32,
    pub waiting_writers: i32,
}

/// How an attempt at the lock ends.
#[derive(Clone, Copy, Debug, PartialEq, Eq, Structural)]
pub enum Attempt {
    Acquired,
    /// The task waits until an attempt may succeed.
    Wait,
}

impl RwLock {
    pub open spec fn wf(self) -> bool {
        self.state >= -1 && self.waiting_writers >= 0
    }

    /// Whether a reader may have the lock.
    pub open spec fn admits_reader(self) -> bool {
        self.state >= 0 && self.waiting_writers == 0
    }

    /// Whether a writer may have the lock.
    pub open spec fn admits_writer(self) -> bool {
        self.state == 0
    }

    pub fn new() -> (r: Self)
        ensures
            r == (RwLock { state: 0, waiting_writers: 0 }),
            r.wf(),
    {
        RwLock { state: 0, waiting_writers: 0 }
    }

    /// What a reader waits for.
    pub fn reader_may_go(&self) -> (r: bool)
        ensures
            r == self.admits_reader(),
            r == (self.state >= 0 && self.waiting_writers == 0),
    {
        self.state >= 0 && self.waiting_writers == 0
    }

    /// What a writer waits for.
    pub fn writer_may_go(&self) -> (r: bool)
        ensures
            r == self.admits_writer(),
            r == (self.state == 0),
    {
        self.state == 0
    }

    /// One attempt of a reader. There are fewer readers than can be counted.
    pub fn read(&mut self) -> (r: Attempt)
        requires
            old(self).wf(),
            old(self).state < i32::MAX,
        ensures
            final(self).wf(),
            r == if old(self).admits_reader() {
                Attempt::Acquired
            } else {
                Attempt::Wait
            },
            *final(self) == if old(self).admits_reader() {
                RwLock { state: (old(self).state + 1) as i32, ..*old(self) }
            } else {
                *old(self)
            },
    {
        if self.state >= 0 && self.waiting_writers == 0 {
            self.state = self.state + 1;
            Attempt::Acquired
        } else {
            Attempt::Wait
        }
    }

    /// Takes the lock for reading, if that can be done at once.
    pub fn try_read(&mut self) -> (r: bool)
        requires
            old(self).wf(),
            old(self).state < i32::MAX,
        ensures
            final(self).wf(),
            r == old(self).admits_reader(),
            *final(self) == if r {
                RwLock { state: (old(self).state + 1) as i32, ..*old(self) }
            } else {
                *old(self)
            },
    {
        self.read() == Attempt::Acquired
    }

    /// Takes the lock for writing, if that can be done at once.
    pub fn try_write(&mut self) -> (r: bool)
        requires
            old(self).wf(),
        ensures
            final(self).wf(),
            r == old(self).admits_writer(),
            *final(self) == if r {
                RwLock { state: -1i32, ..*old(self) }
            } else {
                *old(self)
            },
    {
        if self.state == 0 {
            self.state = -1;
            true
        } else {
            false
        }
    }

    /// The first attempt of a writer: if it fails, the writer waits.
    pub fn write(&mut self) -> (r: Attempt)
        requires
            old(self).wf(),
            old(self).waiting_writers < i32::MAX,
        ensures
            final(self).wf(),
            r == if old(self).admits_writer() {
                Attempt::Acquired
            } else {
                Attempt::Wait
            },
            *final(self) == if old(self).admits_writer() {
                RwLock { state: -1i32, ..*old(self) }
            } else {
                RwLock { waiting_writers: (old(self).waiting_writers + 1) as i32, ..*old(self) }
            },
    {
        if self.try_write() {
            Attempt::Acquired
        } else {
            self.waiting_writers = self.waiting_writers + 1;
            Attempt::Wait
        }
    }

    /// Another attempt of a writer that waits: if it succeeds, the writer no
    /// longer waits.
    pub fn write_again(&mut self) -> (r: Attempt)
        requires
            old(self).wf(),
            old(self).waiting_writers > 0,
        ensures
            final(self).wf(),
            r == if old(self).admits_writer() {
                Attempt::Acquired
            } else {
                Attempt::Wait
            },
            *final(self) == if old(self).admits_writer() {
                RwLock {
                    state: -1i32,
                    waiting_writers: (old(self).waiting_writers - 1) as i32,
                }
            } else {
                *old(self)
            },
    {
        if self.try_write() {
            self.waiting_writers = self.waiting_writers - 1;
            Attempt::Acquired
        } else {
            Attempt::Wait
        }
    }

    /// A reader gives the lock back; tells whether it was the last one, and all
    /// who wait are notified.
    pub fn read_unlock(&mut self) -> (notify: bool)
        requires
            old(self).wf(),
            old(self).state > 0,
        ensures
            final(self).wf(),
            notify == (old(self).state == 1),
            *final(self) == (RwLock { state: (old(self).state - 1) as i32, ..*old(self) }),
    {
        self.state = self.state - 1;
        self.state == 0
    }

    /// A writer gives the lock back; all who wait are notified.
    pub fn write_unlock(&mut self)
        requires
            old(self).wf(),
            old(self).state == -1,
        ensures
            final(self).wf(),
            *final(self) == (RwLock { state: 0, ..*old(self) }),
    {
        self.state = 0;
    }
}

/// A writer has the lock alone, readers keep writers out, and a writer that
/// waits keeps new readers out.
pub proof fn lemma_writer_is_alone(lock: RwLock)
    requires
        lock.wf(),
    ensures
        lock.state == -1 ==> !lock.admits_reader() && !lock.admits_writer(),
        lock.state > 0 ==> !lock.admits_writer(),
        lock.waiting_writers > 0 ==> !lock.admits_reader(),
{
}

/// Nobody waits in vain: a lock that nobody holds admits a writer, and a reader
/// unless a writer waits.
pub proof fn lemma_free_lock_admits(lock: RwLock)
    requires
        lock.wf(),
        lock.state == 0,
    ensures
        lock.admits_writer(),
        lock.waiting_writers == 0 ==> lock.admits_reader(),
{
}

/// Readers share the lock: who comes to a lock that readers hold, and for which
/// no writer waits, may have it too.
pub proof fn lemma_readers_share(lock: RwLock)
    requires
        lock.wf(),
        lock.state > 0,
        lock.waiting_writers == 0,
    ensures
        lock.admits_reader(),
{
}

} // verus!
