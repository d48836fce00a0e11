//! The unit of the append-only per-thread log.
//!
//! Each observing thread writes a sequence of [`Action`] values, one
//! serialized record per line. There is no reliable shutdown point, so
//! records are written (and flushed) the moment they occur; tables are
//! never accumulated and written at the end. The offline analyzer later
//! consolidates all threads' logs into a single graph of observed rank
//! transitions.

use vstd::prelude::*;

verus! {

/// An action logged by a thread that is observing lock acquisition order.
#[derive(Debug, PartialEq, Eq)]
pub enum Action {
    /// A source location that later actions refer to by its address.
    ///
    /// Written once, the first time the location is seen, so that
    /// `Acquisition` records need only carry the compact address.
    /// Addresses are unique only within the log file that produced
    /// them; global identity is (log file, address), never the address
    /// alone.
    Location { address: u64, file: Vec<u8>, line: u32, column: u32 },
    /// A lock rank that later actions refer to by its bit number.
    ///
    /// Written for every rank near the beginning of a thread's log;
    /// the analyzer treats these as idempotent upserts keyed by `bit`.
    Rank { bit: u32, member_name: Vec<u8>, const_name: Vec<u8> },
    /// An attempt to acquire a lock while holding another lock.
    Acquisition {
        /// The rank of the already-held lock.
        older_rank: u32,
        /// The address of the location at which the held lock was acquired.
        older_location: u64,
        /// The rank of the lock being acquired.
        newer_rank: u32,
        /// The address of the location at which it is being acquired.
        newer_location: u64,
    },
}

/// Mathematical model of an [`Action`].
pub enum ActionV {
    Location { address: u64, file: Seq<u8>, line: u32, column: u32 },
    Rank { bit: u32, member_name: Seq<u8>, const_name: Seq<u8> },
    Acquisition { older_rank: u32, older_location: u64, newer_rank: u32, newer_location: u64 },
}

impl View for Action {
    type V = ActionV;

    open spec fn view(&self) -> ActionV {
        match self {
            Action::Location { address, file, line, column } => ActionV::Location {
                address: *address,
                file: file@,
                line: *line,
                column: *column,
            },
            Action::Rank { bit, member_name, const_name } => ActionV::Rank {
                bit: *bit,
                member_name: member_name@,
                const_name: const_name@,
            },
            Action::Acquisition { older_rank, older_location, newer_rank, newer_location } =>
                ActionV::Acquisition {
                    older_rank: *older_rank,
                    older_location: *older_location,
                    newer_rank: *newer_rank,
                    newer_location: *newer_location,
                },
        }
    }
}

/// The views of a sequence of actions.
pub open spec fn action_views(s: Seq<Action>) -> Seq<ActionV> {
    s.map_values(|a: Action| a@)
}

/// Copies a byte vector; the copy has the same view.
pub fn clone_bytes(v: &Vec<u8>) -> (r: Vec<u8>)
    ensures
        r@ == v@,
{
    let r = v.clone();
    proof {
        assert(r@ =~= v@);
    }
    r
}

impl Clone for Action {
    fn clone(&self) -> (r: Self)
        ensures
            r@ == self@,
    {
        match self {
            Action::Location { address, file, line, column } => Action::Location {
                address: *address,
                file: clone_bytes(file),
                line: *line,
                column: *column,
            },
            Action::Rank { bit, member_name, const_name } => Action::Rank {
                bit: *bit,
                member_name: clone_bytes(member_name),
                const_name: clone_bytes(const_name),
            },
            Action::Acquisition { older_rank, older_location, newer_rank, newer_location } =>
                Action::Acquisition {
                    older_rank: *older_rank,
                    older_location: *older_location,
                    newer_rank: *newer_rank,
                    newer_location: *newer_location,
                },
        }
    }
}

} // verus!
