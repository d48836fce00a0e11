//! The rank registry: the fixed mapping from lock class to rank.
//!
//! Every lock class is registered once, before any instrumented
//! acquisition, and is assigned the next free rank; the registry is
//! read-only afterwards. Registering the same class twice, or running
//! out of rank space, is a configuration error surfaced at startup:
//! instrumentation must never proceed silently disabled.

use vstd::prelude::*;

use crate::action::{Action, ActionV, clone_bytes};

verus! {

/// How many distinct lock classes the rank space can hold.
pub const MAX_RANK_COUNT: usize = 64;

/// The names of one lock class: the member name used in reports and
/// the name of its declaration site.
pub struct RankInfo {
    pub member_name: Vec<u8>,
    pub const_name: Vec<u8>,
}

/// Mathematical model of a [`RankInfo`].
pub struct RankInfoV {
    pub member_name: Seq<u8>,
    pub const_name: Seq<u8>,
}

impl View for RankInfo {
    type V = RankInfoV;

    open spec fn view(&self) -> RankInfoV {
        RankInfoV { member_name: self.member_name@, const_name: self.const_name@ }
    }
}

/// Why a registration was rejected. Both are fatal configuration
/// errors at startup.
#[derive(PartialEq, Eq, Structural, Debug)]
pub enum RegistryError {
    /// The same member name was registered before.
    DuplicateRank,
    /// Every rank is already assigned.
    RankSpaceExhausted,
}

/// True when some registered class carries the member name `name`.
pub open spec fn has_member(s: Seq<RankInfoV>, name: Seq<u8>) -> bool {
    exists|j: int| 0 <= j < s.len() && s[j].member_name == name
}

/// The registry of lock classes, indexed by rank.
pub struct RankRegistry {
    ranks: Vec<RankInfo>,
}

impl View for RankRegistry {
    type V = Seq<RankInfoV>;

    closed spec fn view(&self) -> Seq<RankInfoV> {
        self.ranks@.map_values(|r: RankInfo| r@)
    }
}

impl RankRegistry {
    /// The registry never outgrows the rank space.
    pub open spec fn wf(&self) -> bool {
        self@.len() <= MAX_RANK_COUNT
    }

    /// An empty registry.
    pub fn new() -> (r: Self)
        ensures
            r@ == Seq::<RankInfoV>::empty(),
            r.wf(),
    {
        let r = RankRegistry { ranks: Vec::new() };
        proof {
            assert(r@ =~= Seq::<RankInfoV>::empty());
        }
        r
    }

    /// How many classes are registered.
    pub fn count(&self) -> (n: usize)
        ensures
            n == self@.len(),
    {
        self.ranks.len()
    }

    /// Registers a lock class and assigns it the next rank. A member
    /// name registered before is rejected, as is registration beyond
    /// the rank space; in both cases the registry is unchanged.
    pub fn register(&mut self, member_name: Vec<u8>, const_name: Vec<u8>) -> (r: Result<
        u32,
        RegistryError,
    >)
        requires
            old(self).wf(),
        ensures
            final(self).wf(),
            match r {
                Ok(rank) => {
                    &&& !has_member(old(self)@, member_name@)
                    &&& old(self)@.len() < MAX_RANK_COUNT
                    &&& rank == old(self)@.len()
                    &&& final(self)@ == old(self)@.push(
                        RankInfoV { member_name: member_name@, const_name: const_name@ },
                    )
                },
                Err(RegistryError::DuplicateRank) => {
                    &&& has_member(old(self)@, member_name@)
                    &&& final(self)@ == old(self)@
                },
                Err(RegistryError::RankSpaceExhausted) => {
                    &&& !has_member(old(self)@, member_name@)
                    &&& old(self)@.len() >= MAX_RANK_COUNT
                    &&& final(self)@ == old(self)@
                },
            },
    {
        let mut j: usize = 0;
        while j < self.ranks.len()
            invariant
                self@ == old(self)@,
                self@.len() <= MAX_RANK_COUNT,
                self.ranks@.map_values(|x: RankInfo| x@) == self@,
                j <= self.ranks@.len(),
                forall|t: int| 0 <= t < j ==> self@[t].member_name != member_name@,
            decreases self.ranks@.len() - j,
        {
            if crate::codec::bytes_eq(&self.ranks[j].member_name, &member_name) {
                proof {
                    assert(self@[j as int].member_name == member_name@);
                }
                return Err(RegistryError::DuplicateRank);
            }
            j = j + 1;
        }
        if self.ranks.len() >= MAX_RANK_COUNT {
            return Err(RegistryError::RankSpaceExhausted);
        }
        let rank = self.ranks.len() as u32;
        let info = RankInfo { member_name, const_name };
        proof {
            assert(self.ranks@.push(info).map_values(|x: RankInfo| x@) =~= self@.push(info@));
        }
        self.ranks.push(info);
        Ok(rank)
    }

    /// The names of the class with rank `rank`, if it is assigned.
    pub fn lookup(&self, rank: u32) -> (r: Option<&RankInfo>)
        ensures
            match r {
                Some(info) => (rank as int) < self@.len() && info@ == self@[rank as int],
                None => (rank as int) >= self@.len(),
            },
    {
        if (rank as usize) < self.ranks.len() {
            let info = &self.ranks[rank as usize];
            proof {
                assert(info@ == self@[rank as int]);
            }
            Some(info)
        } else {
            None
        }
    }

    /// One `Rank` record per registered class, in rank order: what a
    /// thread writes near the start of its log so that the analyzer
    /// can name every rank it meets.
    pub fn rank_records(&self) -> (v: Vec<Action>)
        requires
            self.wf(),
        ensures
            v@.len() == self@.len(),
            forall|i: int|
                0 <= i < v@.len() ==> (#[trigger] v@[i])@ == (ActionV::Rank {
                    bit: i as u32,
                    member_name: self@[i].member_name,
                    const_name: self@[i].const_name,
                }),
    {
        let mut v: Vec<Action> = Vec::new();
        let mut i: usize = 0;
        while i < self.ranks.len()
            invariant
                self.ranks@.map_values(|x: RankInfo| x@) == self@,
                self@.len() <= MAX_RANK_COUNT,
                i <= self.ranks@.len(),
                v@.len() == i,
                forall|t: int|
                    0 <= t < i ==> (#[trigger] v@[t])@ == (ActionV::Rank {
                        bit: t as u32,
                        member_name: self@[t].member_name,
                        const_name: self@[t].const_name,
                    }),
            decreases self.ranks@.len() - i,
        {
            let info = &self.ranks[i];
            v.push(
                Action::Rank {
                    bit: i as u32,
                    member_name: clone_bytes(&info.member_name),
                    const_name: clone_bytes(&info.const_name),
                },
            );
            i = i + 1;
        }
        v
    }
}

} // verus!
