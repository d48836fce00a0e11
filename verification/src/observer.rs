//! Per-thread observation state: the location interner and the
//! acquisition tracker.
//!
//! Each observing thread owns one of each, shares them with nobody,
//! and therefore needs no synchronization. The methods return the
//! records to append to the thread's log; writing them is the
//! caller's concern.

use vstd::prelude::*;

use crate::action::{Action, clone_bytes};
use crate::action::ActionV;
use crate::{SourceCoord, SourceCoordV};

verus! {

/// True when `s` holds the coordinate `c`.
pub open spec fn has_coord(s: Seq<SourceCoordV>, c: SourceCoordV) -> bool {
    exists|j: int| 0 <= j < s.len() && s[j] == c
}

/// Per-thread, lazily filled map from source coordinates to compact
/// thread-local addresses. An address is an index into the order of
/// first use; it identifies a coordinate only together with the log
/// file that produced it. Entries are never evicted: call sites are
/// few and static.
pub struct LocationInterner {
    entries: Vec<SourceCoord>,
}

impl View for LocationInterner {
    type V = Seq<SourceCoordV>;

    closed spec fn view(&self) -> Seq<SourceCoordV> {
        self.entries@.map_values(|c: SourceCoord| c@)
    }
}

impl LocationInterner {
    /// The interner never holds the same coordinate twice.
    pub open spec fn wf(&self) -> bool {
        forall|j: int, k: int| 0 <= j < k < self@.len() ==> self@[j] != self@[k]
    }

    /// An empty interner.
    pub fn new() -> (r: Self)
        ensures
            r@ == Seq::<SourceCoordV>::empty(),
            r.wf(),
    {
        let r = LocationInterner { entries: Vec::new() };
        proof {
            assert(r@ =~= Seq::<SourceCoordV>::empty());
        }
        r
    }

    /// The address of `(file, line, column)`, interning it on first
    /// use. A coordinate seen before yields its existing address and
    /// no record; a new coordinate is appended and yields the one
    /// `Location` record to write, so each coordinate is announced in
    /// the log exactly once.
    pub fn intern(&mut self, file: &Vec<u8>, line: u32, column: u32) -> (r: (u64, Option<Action>))
        requires
            old(self).wf(),
            old(self)@.len() < u64::MAX,
        ensures
            final(self).wf(),
            ({
                let c = SourceCoordV { file: file@, line, column };
                if has_coord(old(self)@, c) {
                    &&& final(self)@ == old(self)@
                    &&& (r.0 as int) < old(self)@.len() && old(self)@[r.0 as int] == c
                    &&& r.1 is None
                } else {
                    &&& final(self)@ == old(self)@.push(c)
                    &&& r.0 == old(self)@.len()
                    &&& r.1 matches Some(a) && a@ == (ActionV::Location {
                        address: r.0,
                        file: file@,
                        line,
                        column,
                    })
                }
            }),
    {
        let ghost c = SourceCoordV { file: file@, line, column };
        let mut j: usize = 0;
        while j < self.entries.len()
            invariant
                self@ == old(self)@,
                self.wf(),
                self.entries@.map_values(|x: SourceCoord| x@) == self@,
                j <= self.entries@.len(),
                forall|t: int| 0 <= t < j ==> self@[t] != c,
                c == (SourceCoordV { file: file@, line, column }),
            decreases self.entries@.len() - j,
        {
            let e = &self.entries[j];
            if e.line == line && e.column == column && crate::codec::bytes_eq(&e.file, file) {
                proof {
                    assert(self@[j as int] == c);
                }
                return (j as u64, None);
            }
            j = j + 1;
        }
        proof {
            assert(!has_coord(self@, c));
        }
        let address = self.entries.len() as u64;
        let coord = SourceCoord { file: clone_bytes(file), line, column };
        proof {
            assert(coord@ == c);
            assert(self.entries@.push(coord).map_values(|x: SourceCoord| x@) =~= self@.push(c));
        }
        self.entries.push(coord);
        let rec = Action::Location { address, file: clone_bytes(file), line, column };
        proof {
            assert forall|j2: int, k2: int| 0 <= j2 < k2 < self@.len() implies self@[j2]
                != self@[k2] by {
                if k2 < self@.len() - 1 {
                    assert(old(self)@[j2] != old(self)@[k2]);
                }
            }
        }
        (address, Some(rec))
    }

    /// How many coordinates have been interned.
    pub fn len(&self) -> (n: usize)
        ensures
            n == self@.len(),
    {
        self.entries.len()
    }
}

/// Law: a well-formed interner gives one coordinate one address. An
/// address found for a coordinate is the only one, so interning a
/// coordinate a second time returns the address of the first time,
/// and the one `Location` record of the pair was emitted then.
pub proof fn lemma_coord_address_unique(s: Seq<SourceCoordV>, c: SourceCoordV, j1: int, j2: int)
    requires
        forall|j: int, k: int| 0 <= j < k < s.len() ==> s[j] != s[k],
        0 <= j1 < s.len(),
        0 <= j2 < s.len(),
        s[j1] == c,
        s[j2] == c,
    ensures
        j1 == j2,
{
    if j1 < j2 {
        assert(s[j1] != s[j2]);
    } else if j2 < j1 {
        assert(s[j2] != s[j1]);
    }
}

/// One currently-held lock: its rank and the address of the location
/// at which it was acquired.
#[derive(Clone, Copy, PartialEq, Eq, Structural)]
pub struct HeldLock {
    pub rank: u32,
    pub location: u64,
}

/// The ordered stack of locks a thread currently holds, oldest first.
/// Locks must be released in reverse acquisition order; the tracker
/// assumes that discipline rather than checking it.
pub struct AcquisitionTracker {
    stack: Vec<HeldLock>,
}

impl View for AcquisitionTracker {
    type V = Seq<HeldLock>;

    closed spec fn view(&self) -> Seq<HeldLock> {
        self.stack@
    }
}

impl AcquisitionTracker {
    /// A tracker holding nothing.
    pub fn new() -> (r: Self)
        ensures
            r@ == Seq::<HeldLock>::empty(),
    {
        AcquisitionTracker { stack: Vec::new() }
    }

    /// How many locks are currently held.
    pub fn depth(&self) -> (n: usize)
        ensures
            n == self@.len(),
    {
        self.stack.len()
    }

    /// Records an acquisition: one `Acquisition` edge is emitted for
    /// every lock currently held - not only the most recent, so that
    /// transitive ordering constraints are captured - and the new
    /// lock is pushed. With no locks held, no edge is emitted; with a
    /// set of locks held, exactly one edge per held lock, in stack
    /// order.
    pub fn on_acquire(&mut self, rank: u32, location: u64) -> (emitted: Vec<Action>)
        ensures
            final(self)@ == old(self)@.push(HeldLock { rank, location }),
            emitted@.len() == old(self)@.len(),
            old(self)@.len() == 0 ==> emitted@.len() == 0,
            forall|i: int|
                0 <= i < emitted@.len() ==> (#[trigger] emitted@[i])@ == (ActionV::Acquisition {
                    older_rank: old(self)@[i].rank,
                    older_location: old(self)@[i].location,
                    newer_rank: rank,
                    newer_location: location,
                }),
    {
        let mut emitted: Vec<Action> = Vec::new();
        let mut i: usize = 0;
        while i < self.stack.len()
            invariant
                self@ == old(self)@,
                self.stack@ == old(self).stack@,
                i <= self.stack@.len(),
                emitted@.len() == i,
                forall|t: int|
                    0 <= t < i ==> (#[trigger] emitted@[t])@ == (ActionV::Acquisition {
                        older_rank: self.stack@[t].rank,
                        older_location: self.stack@[t].location,
                        newer_rank: rank,
                        newer_location: location,
                    }),
            decreases self.stack@.len() - i,
        {
            let held = self.stack[i];
            emitted.push(
                Action::Acquisition {
                    older_rank: held.rank,
                    older_location: held.location,
                    newer_rank: rank,
                    newer_location: location,
                },
            );
            i = i + 1;
        }
        self.stack.push(HeldLock { rank, location });
        emitted
    }

    /// Records a release: the most recently acquired lock is popped.
    /// Releasing with nothing held is a bug in the host's lock-guard
    /// discipline; the caller must not let it reach this method.
    pub fn on_release(&mut self)
        requires
            old(self)@.len() > 0,
        ensures
            final(self)@ == old(self)@.drop_last(),
    {
        self.stack.pop();
        proof {
            assert(self.stack@ =~= old(self).stack@.drop_last());
        }
    }
}

/// Everything one observing thread needs: its interner and its
/// tracker. The two hooks are what the host's lock wrappers call,
/// immediately before a lock is obtained and when its guard is
/// dropped; each returns the records to append to this thread's log.
pub struct ThreadObserver {
    pub interner: LocationInterner,
    pub tracker: AcquisitionTracker,
}

impl ThreadObserver {
    /// True when the interner is well formed.
    pub open spec fn wf(&self) -> bool {
        self.interner.wf()
    }

    /// A fresh observer with nothing interned and nothing held.
    pub fn new() -> (r: Self)
        ensures
            r.wf(),
            r.interner@ == Seq::<SourceCoordV>::empty(),
            r.tracker@ == Seq::<HeldLock>::empty(),
    {
        ThreadObserver { interner: LocationInterner::new(), tracker: AcquisitionTracker::new() }
    }

    /// The acquisition hook: interns the coordinate, emits one edge
    /// per held lock, and pushes the new lock. The returned records -
    /// at most one `Location`, then the edges - are appended to the
    /// thread's log in order.
    pub fn acquire_hook(&mut self, rank: u32, file: &Vec<u8>, line: u32, column: u32) -> (r: (
        u64,
        Vec<Action>,
    ))
        requires
            old(self).wf(),
            old(self).interner@.len() < u64::MAX,
        ensures
            final(self).wf(),
            ({
                let addr = r.0;
                let emitted = r.1;
                let c = SourceCoordV { file: file@, line, column };
                let edges = Seq::new(
                    old(self).tracker@.len(),
                    |i: int| ActionV::Acquisition {
                        older_rank: old(self).tracker@[i].rank,
                        older_location: old(self).tracker@[i].location,
                        newer_rank: rank,
                        newer_location: addr,
                    },
                );
                &&& final(self).tracker@ == old(self).tracker@.push(
                    HeldLock { rank, location: addr },
                )
                &&& if has_coord(old(self).interner@, c) {
                    &&& final(self).interner@ == old(self).interner@
                    &&& (addr as int) < old(self).interner@.len()
                    &&& old(self).interner@[addr as int] == c
                    &&& emitted@.map_values(|a: Action| a@) == edges
                } else {
                    &&& final(self).interner@ == old(self).interner@.push(c)
                    &&& addr == old(self).interner@.len()
                    &&& emitted@.map_values(|a: Action| a@) == seq![
                        ActionV::Location { address: addr, file: file@, line, column },
                    ] + edges
                }
            }),
    {
        let (addr, loc_rec) = self.interner.intern(file, line, column);
        let edges = self.tracker.on_acquire(rank, addr);
        let ghost edges_v = Seq::new(
            old(self).tracker@.len(),
            |i: int| ActionV::Acquisition {
                older_rank: old(self).tracker@[i].rank,
                older_location: old(self).tracker@[i].location,
                newer_rank: rank,
                newer_location: addr,
            },
        );
        match loc_rec {
            Some(rec) => {
                let mut emitted: Vec<Action> = Vec::new();
                emitted.push(rec);
                let mut rest = edges;
                emitted.append(&mut rest);
                proof {
                    assert(emitted@.map_values(|a: Action| a@) =~= seq![
                        ActionV::Location { address: addr, file: file@, line, column },
                    ] + edges_v);
                }
                (addr, emitted)
            },
            None => {
                proof {
                    assert(edges@.map_values(|a: Action| a@) =~= edges_v);
                }
                (addr, edges)
            },
        }
    }

    /// The release hook: pops the most recently acquired lock.
    /// Nothing is written on release.
    pub fn release_hook(&mut self)
        requires
            old(self).tracker@.len() > 0,
        ensures
            final(self).wf() == old(self).wf(),
            final(self).interner@ == old(self).interner@,
            final(self).tracker@ == old(self).tracker@.drop_last(),
    {
        self.tracker.on_release();
    }
}

} // verus!
