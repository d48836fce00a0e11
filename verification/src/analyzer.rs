//! The offline consolidator: merges every thread's log into one rank
//! graph.
//!
//! Each file is replayed in order, rebuilding that file's own
//! location table; addresses are resolved only against the table of
//! the file they came from, never another file's, so two logs that
//! reuse the same address for different coordinates stay independent.
//! `Rank` records are idempotent upserts into one shared table keyed
//! by bit; two files that disagree on a bit's names are evidence of
//! mixed builds and fail the run. Every `Acquisition` record becomes
//! an edge of one shared graph, first observation's locations kept as
//! evidence. A malformed terminated line fails the file with its line
//! index; a missing trailing newline only drops the unflushed
//! fragment. No input files yield an empty, clean analysis, which is
//! reduced coverage, never evidence of cleanliness.

use vstd::prelude::*;

use crate::action::{Action, ActionV, action_views, clone_bytes};
use crate::codec::{parse_log, spec_parse_log};
use crate::graph::{RankEdge, RankEdgeV, RankGraph, edge_in, is_cycle, cycle_step};
use crate::{SourceCoord, SourceCoordV};

verus! {

/// One entry of the shared rank table: the names registered for a
/// bit.
pub struct RankDef {
    pub bit: u32,
    pub member_name: Vec<u8>,
    pub const_name: Vec<u8>,
}

/// Mathematical model of a [`RankDef`].
pub struct RankDefV {
    pub bit: u32,
    pub member_name: Seq<u8>,
    pub const_name: Seq<u8>,
}

impl View for RankDef {
    type V = RankDefV;

    open spec fn view(&self) -> RankDefV {
        RankDefV {
            bit: self.bit,
            member_name: self.member_name@,
            const_name: self.const_name@,
        }
    }
}

/// The views of a rank table.
pub open spec fn rank_views(s: Seq<RankDef>) -> Seq<RankDefV> {
    s.map_values(|r: RankDef| r@)
}

/// One entry of a file's local location table.
pub struct LocEntry {
    pub address: u64,
    pub coord: SourceCoord,
}

/// Mathematical model of a [`LocEntry`].
pub struct LocEntryV {
    pub address: u64,
    pub coord: SourceCoordV,
}

impl View for LocEntry {
    type V = LocEntryV;

    open spec fn view(&self) -> LocEntryV {
        LocEntryV { address: self.address, coord: self.coord@ }
    }
}

/// The views of a location table.
pub open spec fn loc_views(s: Seq<LocEntry>) -> Seq<LocEntryV> {
    s.map_values(|e: LocEntry| e@)
}

/// The views of a set of log files.
pub open spec fn file_views(s: Seq<Vec<u8>>) -> Seq<Seq<u8>> {
    s.map_values(|f: Vec<u8>| f@)
}

/// Why one record could not be replayed.
#[derive(Debug)]
pub enum ReplayError {
    /// Two logs disagree on the names of this bit: logs of mixed
    /// builds are not analyzed together.
    RankMismatch { bit: u32 },
    /// An acquisition referred to an address that no earlier
    /// `Location` record of the same file announced.
    UnknownLocation { address: u64 },
}

/// Mathematical model of a [`ReplayError`].
pub enum ReplayErrorV {
    RankMismatch { bit: u32 },
    UnknownLocation { address: u64 },
}

impl View for ReplayError {
    type V = ReplayErrorV;

    open spec fn view(&self) -> ReplayErrorV {
        match self {
            ReplayError::RankMismatch { bit } => ReplayErrorV::RankMismatch { bit: *bit },
            ReplayError::UnknownLocation { address } => ReplayErrorV::UnknownLocation {
                address: *address,
            },
        }
    }
}

/// Why an analysis run failed, naming the file that broke it.
#[derive(Debug)]
pub enum AnalysisError {
    /// A terminated line of the file is not a canonical record.
    MalformedLine { file_index: usize, line_index: usize },
    /// The file disagrees with an earlier one on a bit's names.
    RankMismatch { file_index: usize, bit: u32 },
    /// The file used an address it never announced.
    UnknownLocation { file_index: usize, address: u64 },
}

/// Mathematical model of an [`AnalysisError`].
pub enum AnalysisErrorV {
    MalformedLine { file_index: int, line_index: int },
    RankMismatch { file_index: int, bit: u32 },
    UnknownLocation { file_index: int, address: u64 },
}

impl View for AnalysisError {
    type V = AnalysisErrorV;

    open spec fn view(&self) -> AnalysisErrorV {
        match self {
            AnalysisError::MalformedLine { file_index, line_index } =>
                AnalysisErrorV::MalformedLine {
                file_index: *file_index as int,
                line_index: *line_index as int,
            },
            AnalysisError::RankMismatch { file_index, bit } => AnalysisErrorV::RankMismatch {
                file_index: *file_index as int,
                bit: *bit,
            },
            AnalysisError::UnknownLocation { file_index, address } =>
                AnalysisErrorV::UnknownLocation {
                file_index: *file_index as int,
                address: *address,
            },
        }
    }
}

/// The first rank definition with bit `bit`, front to back.
pub open spec fn rank_find(ranks: Seq<RankDefV>, bit: u32) -> Option<RankDefV>
    decreases ranks.len(),
{
    if ranks.len() == 0 {
        None
    } else if ranks[0].bit == bit {
        Some(ranks[0])
    } else {
        rank_find(ranks.skip(1), bit)
    }
}

/// The coordinate that `address` resolves to in a file's local
/// table: the latest `Location` record for it wins.
pub open spec fn loc_find(locs: Seq<LocEntryV>, address: u64) -> Option<SourceCoordV>
    decreases locs.len(),
{
    if locs.len() == 0 {
        None
    } else if locs.last().address == address {
        Some(locs.last().coord)
    } else {
        loc_find(locs.drop_last(), address)
    }
}

/// What replaying one record does to the shared rank table, the
/// shared graph and the file's local location table.
pub open spec fn spec_step(
    ranks: Seq<RankDefV>,
    graph: Seq<RankEdgeV>,
    locs: Seq<LocEntryV>,
    a: ActionV,
) -> Result<(Seq<RankDefV>, Seq<RankEdgeV>, Seq<LocEntryV>), ReplayErrorV> {
    match a {
        ActionV::Location { address, file, line, column } => Ok(
            (
                ranks,
                graph,
                locs.push(LocEntryV { address, coord: SourceCoordV { file, line, column } }),
            ),
        ),
        ActionV::Rank { bit, member_name, const_name } => match rank_find(ranks, bit) {
            Some(def) => if def.member_name == member_name && def.const_name == const_name {
                Ok((ranks, graph, locs))
            } else {
                Err(ReplayErrorV::RankMismatch { bit })
            },
            None => Ok((ranks.push(RankDefV { bit, member_name, const_name }), graph, locs)),
        },
        ActionV::Acquisition { older_rank, older_location, newer_rank, newer_location } => match (
            loc_find(locs, older_location),
            loc_find(locs, newer_location),
        ) {
            (Some(older_coord), Some(newer_coord)) => if edge_in(graph, older_rank, newer_rank) {
                Ok((ranks, graph, locs))
            } else {
                Ok(
                    (
                        ranks,
                        graph.push(
                            RankEdgeV { older_rank, newer_rank, older_coord, newer_coord },
                        ),
                        locs,
                    ),
                )
            },
            (None, _) => Err(ReplayErrorV::UnknownLocation { address: older_location }),
            (Some(_), None) => Err(ReplayErrorV::UnknownLocation { address: newer_location }),
        },
    }
}

/// Replaying a whole file's records, in order.
pub open spec fn spec_replay(
    ranks: Seq<RankDefV>,
    graph: Seq<RankEdgeV>,
    locs: Seq<LocEntryV>,
    actions: Seq<ActionV>,
) -> Result<(Seq<RankDefV>, Seq<RankEdgeV>), ReplayErrorV>
    decreases actions.len(),
{
    if actions.len() == 0 {
        Ok((ranks, graph))
    } else {
        match spec_step(ranks, graph, locs, actions[0]) {
            Ok((r2, g2, l2)) => spec_replay(r2, g2, l2, actions.skip(1)),
            Err(e) => Err(e),
        }
    }
}

/// Consuming the files in order, each with a fresh location table.
pub open spec fn spec_analyze_from(
    ranks: Seq<RankDefV>,
    graph: Seq<RankEdgeV>,
    files: Seq<Seq<u8>>,
    k: int,
) -> Result<(Seq<RankDefV>, Seq<RankEdgeV>), AnalysisErrorV>
    decreases files.len() - k when 0 <= k <= files.len()
{
    if k >= files.len() {
        Ok((ranks, graph))
    } else {
        match spec_parse_log(files[k]) {
            Err(line) => Err(AnalysisErrorV::MalformedLine { file_index: k, line_index: line }),
            Ok(actions) => match spec_replay(ranks, graph, Seq::empty(), actions) {
                Ok((r2, g2)) => spec_analyze_from(r2, g2, files, k + 1),
                Err(ReplayErrorV::RankMismatch { bit }) => Err(
                    AnalysisErrorV::RankMismatch { file_index: k, bit },
                ),
                Err(ReplayErrorV::UnknownLocation { address }) => Err(
                    AnalysisErrorV::UnknownLocation { file_index: k, address },
                ),
            },
        }
    }
}

/// What analyzing a set of log files yields: the merged rank table
/// and the merged graph, or the first failure.
pub open spec fn spec_analyze(files: Seq<Seq<u8>>) -> Result<
    (Seq<RankDefV>, Seq<RankEdgeV>),
    AnalysisErrorV,
> {
    spec_analyze_from(Seq::empty(), Seq::empty(), files, 0)
}

/// The first rank definition with bit `bit`.
fn rank_lookup(ranks: &Vec<RankDef>, bit: u32) -> (r: Option<&RankDef>)
    ensures
        match r {
            Some(def) => rank_find(rank_views(ranks@), bit) == Some(def@),
            None => rank_find(rank_views(ranks@), bit) is None,
        },
{
    let ghost rv = rank_views(ranks@);
    proof {
        assert(rv.skip(0) =~= rv);
    }
    let mut j: usize = 0;
    while j < ranks.len()
        invariant
            rv == rank_views(ranks@),
            j <= ranks@.len(),
            rank_find(rv, bit) == rank_find(rv.skip(j as int), bit),
        decreases ranks@.len() - j,
    {
        if ranks[j].bit == bit {
            proof {
                assert(rv.skip(j as int)[0] == rv[j as int]);
            }
            return Some(&ranks[j]);
        }
        proof {
            assert(rv.skip(j as int)[0] == rv[j as int]);
            assert(rv.skip(j as int).skip(1) =~= rv.skip(j + 1));
        }
        j = j + 1;
    }
    proof {
        assert(rv.skip(ranks@.len() as int) =~= Seq::<RankDefV>::empty());
    }
    None
}

/// The coordinate that `address` resolves to, latest record first.
fn loc_lookup(locs: &Vec<LocEntry>, address: u64) -> (r: Option<SourceCoord>)
    ensures
        match r {
            Some(coord) => loc_find(loc_views(locs@), address) == Some(coord@),
            None => loc_find(loc_views(locs@), address) is None,
        },
{
    let ghost lv = loc_views(locs@);
    proof {
        assert(lv.take(locs@.len() as int) =~= lv);
    }
    let mut i: usize = locs.len();
    while i > 0
        invariant
            lv == loc_views(locs@),
            i <= locs@.len(),
            loc_find(lv, address) == loc_find(lv.take(i as int), address),
        decreases i,
    {
        i = i - 1;
        if locs[i].address == address {
            proof {
                assert(lv.take(i + 1).last() == lv[i as int]);
            }
            return Some(crate::SourceCoord {
                file: clone_bytes(&locs[i].coord.file),
                line: locs[i].coord.line,
                column: locs[i].coord.column,
            });
        }
        proof {
            assert(lv.take(i + 1).last() == lv[i as int]);
            assert(lv.take(i + 1).drop_last() =~= lv.take(i as int));
        }
    }
    proof {
        assert(lv.take(0) =~= Seq::<LocEntryV>::empty());
    }
    None
}

/// Replays one file's records into the shared tables, with a fresh
/// local location table.
fn replay_file(ranks: &mut Vec<RankDef>, graph: &mut RankGraph, actions: &Vec<Action>) -> (r:
    Result<(), ReplayError>)
    ensures
        match r {
            Ok(_) => spec_replay(
                rank_views(old(ranks)@),
                old(graph)@,
                Seq::empty(),
                action_views(actions@),
            ) == Ok::<(Seq<RankDefV>, Seq<RankEdgeV>), ReplayErrorV>(
                (rank_views(final(ranks)@), final(graph)@),
            ),
            Err(e) => spec_replay(
                rank_views(old(ranks)@),
                old(graph)@,
                Seq::empty(),
                action_views(actions@),
            ) == Err::<(Seq<RankDefV>, Seq<RankEdgeV>), ReplayErrorV>(e@),
        },
{
    let mut locs: Vec<LocEntry> = Vec::new();
    let mut i: usize = 0;
    proof {
        assert(loc_views(locs@) =~= Seq::<LocEntryV>::empty());
        assert(action_views(actions@).skip(0) =~= action_views(actions@));
    }
    while i < actions.len()
        invariant
            i <= actions@.len(),
            spec_replay(
                rank_views(old(ranks)@),
                old(graph)@,
                Seq::empty(),
                action_views(actions@),
            ) == spec_replay(
                rank_views(ranks@),
                graph@,
                loc_views(locs@),
                action_views(actions@).skip(i as int),
            ),
        decreases actions@.len() - i,
    {
        let ghost pre = (rank_views(ranks@), graph@, loc_views(locs@));
        let ghost rest = action_views(actions@).skip(i as int);
        proof {
            assert(rest[0] == action_views(actions@)[i as int]);
            assert(rest.skip(1) =~= action_views(actions@).skip(i + 1));
        }
        match &actions[i] {
            Action::Location { address, file, line, column } => {
                let entry = LocEntry {
                    address: *address,
                    coord: SourceCoord { file: clone_bytes(file), line: *line, column: *column },
                };
                proof {
                    assert(loc_views(locs@.push(entry)) =~= loc_views(locs@).push(entry@));
                }
                locs.push(entry);
            },
            Action::Rank { bit, member_name, const_name } => {
                match rank_lookup(ranks, *bit) {
                    Some(def) => {
                        let same = crate::codec::bytes_eq(&def.member_name, member_name)
                            && crate::codec::bytes_eq(&def.const_name, const_name);
                        if !same {
                            return Err(ReplayError::RankMismatch { bit: *bit });
                        }
                    },
                    None => {
                        let def = RankDef {
                            bit: *bit,
                            member_name: clone_bytes(member_name),
                            const_name: clone_bytes(const_name),
                        };
                        proof {
                            assert(rank_views(ranks@.push(def)) =~= rank_views(ranks@).push(def@));
                        }
                        ranks.push(def);
                    },
                }
            },
            Action::Acquisition { older_rank, older_location, newer_rank, newer_location } => {
                let older_coord = match loc_lookup(&locs, *older_location) {
                    Some(c) => c,
                    None => {
                        return Err(ReplayError::UnknownLocation { address: *older_location });
                    },
                };
                let newer_coord = match loc_lookup(&locs, *newer_location) {
                    Some(c) => c,
                    None => {
                        return Err(ReplayError::UnknownLocation { address: *newer_location });
                    },
                };
                graph.insert_edge(
                    RankEdge {
                        older_rank: *older_rank,
                        newer_rank: *newer_rank,
                        older_coord,
                        newer_coord,
                    },
                );
            },
        }
        i = i + 1;
    }
    proof {
        assert(action_views(actions@).skip(actions@.len() as int) =~= Seq::<ActionV>::empty());
    }
    Ok(())
}

/// The merged result of one analysis run: the rank table and the
/// global lock-order graph.
pub struct Analysis {
    pub ranks: Vec<RankDef>,
    pub graph: RankGraph,
}

/// One position of a reported cycle: the rank, its names (empty when
/// no `Rank` record named it), and the example location pair for the
/// edge from this rank to the next one on the cycle.
pub struct CycleEntry {
    pub rank: u32,
    pub member_name: Vec<u8>,
    pub const_name: Vec<u8>,
    pub older_coord: SourceCoord,
    pub newer_coord: SourceCoord,
}

/// Merges a set of per-thread log files, in order, into one analysis.
pub fn analyze(files: &Vec<Vec<u8>>) -> (r: Result<Analysis, AnalysisError>)
    ensures
        match r {
            Ok(a) => spec_analyze(file_views(files@)) == Ok::<
                (Seq<RankDefV>, Seq<RankEdgeV>),
                AnalysisErrorV,
            >((rank_views(a.ranks@), a.graph@)),
            Err(e) => spec_analyze(file_views(files@)) == Err::<
                (Seq<RankDefV>, Seq<RankEdgeV>),
                AnalysisErrorV,
            >(e@),
        },
{
    let mut ranks: Vec<RankDef> = Vec::new();
    let mut graph = RankGraph::new();
    let mut k: usize = 0;
    proof {
        assert(rank_views(ranks@) =~= Seq::<RankDefV>::empty());
    }
    while k < files.len()
        invariant
            k <= files@.len(),
            spec_analyze(file_views(files@)) == spec_analyze_from(
                rank_views(ranks@),
                graph@,
                file_views(files@),
                k as int,
            ),
        decreases files@.len() - k,
    {
        proof {
            assert(file_views(files@)[k as int] == files@[k as int]@);
        }
        match parse_log(&files[k]) {
            Err(line) => {
                return Err(AnalysisError::MalformedLine { file_index: k, line_index: line });
            },
            Ok(actions) => {
                match replay_file(&mut ranks, &mut graph, &actions) {
                    Ok(_) => {},
                    Err(ReplayError::RankMismatch { bit }) => {
                        return Err(AnalysisError::RankMismatch { file_index: k, bit });
                    },
                    Err(ReplayError::UnknownLocation { address }) => {
                        return Err(AnalysisError::UnknownLocation { file_index: k, address });
                    },
                }
            },
        }
        k = k + 1;
    }
    Ok(Analysis { ranks, graph })
}

impl Analysis {
    /// Describes one detected cycle for reporting: each rank with its
    /// names and the evidence locations of its edge to the next rank
    /// on the cycle.
    pub fn describe_cycle(&self, cyc: &Vec<u32>) -> (entries: Vec<CycleEntry>)
        requires
            is_cycle(self.graph@, cyc@),
        ensures
            entries@.len() == cyc@.len(),
            forall|i: int|
                0 <= i < entries@.len() ==> {
                    let e = #[trigger] entries@[i];
                    &&& e.rank == cyc@[i]
                    &&& match rank_find(rank_views(self.ranks@), cyc@[i]) {
                        Some(def) => e.member_name@ == def.member_name && e.const_name@
                            == def.const_name,
                        None => e.member_name@ == Seq::<u8>::empty() && e.const_name@
                            == Seq::<u8>::empty(),
                    }
                    &&& exists|j: int|
                        0 <= j < self.graph@.len() && #[trigger] self.graph@[j].older_rank
                            == cyc@[i] && self.graph@[j].newer_rank == cycle_step(cyc@, i)
                            && e.older_coord@ == self.graph@[j].older_coord && e.newer_coord@
                            == self.graph@[j].newer_coord
                },
    {
        let n = cyc.len();
        let mut entries: Vec<CycleEntry> = Vec::new();
        let mut i: usize = 0;
        while i < n
            invariant
                n == cyc@.len(),
                is_cycle(self.graph@, cyc@),
                i <= n,
                entries@.len() == i,
                forall|t: int|
                    0 <= t < i ==> {
                        let e = #[trigger] entries@[t];
                        &&& e.rank == cyc@[t]
                        &&& match rank_find(rank_views(self.ranks@), cyc@[t]) {
                            Some(def) => e.member_name@ == def.member_name && e.const_name@
                                == def.const_name,
                            None => e.member_name@ == Seq::<u8>::empty() && e.const_name@
                                == Seq::<u8>::empty(),
                        }
                        &&& exists|j: int|
                            0 <= j < self.graph@.len() && #[trigger] self.graph@[j].older_rank
                                == cyc@[t] && self.graph@[j].newer_rank == cycle_step(cyc@, t)
                                && e.older_coord@ == self.graph@[j].older_coord && e.newer_coord@
                                == self.graph@[j].newer_coord
                    },
            decreases n - i,
        {
            let rank = cyc[i];
            let next = if i + 1 == n {
                cyc[0]
            } else {
                cyc[i + 1]
            };
            proof {
                assert(edge_in(self.graph@, cyc@[i as int], cycle_step(cyc@, i as int)));
                assert(next == cycle_step(cyc@, i as int));
            }
            let (member_name, const_name) = match rank_lookup(&self.ranks, rank) {
                Some(def) => (clone_bytes(&def.member_name), clone_bytes(&def.const_name)),
                None => (Vec::new(), Vec::new()),
            };
            let edge = match self.graph.find_edge(rank, next) {
                Some(e) => e,
                None => {
                    proof {
                        assert(false);
                    }
                    return entries;
                },
            };
            entries.push(
                CycleEntry {
                    rank,
                    member_name,
                    const_name,
                    older_coord: SourceCoord {
                        file: clone_bytes(&edge.older_coord.file),
                        line: edge.older_coord.line,
                        column: edge.older_coord.column,
                    },
                    newer_coord: SourceCoord {
                        file: clone_bytes(&edge.newer_coord.file),
                        line: edge.newer_coord.line,
                        column: edge.newer_coord.column,
                    },
                },
            );
            i = i + 1;
        }
        entries
    }
}

} // verus!
