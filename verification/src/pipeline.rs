//! The whole analysis pipeline over a raw input text: validate and build,
//! detect cycles, and — for an acyclic graph — label breadth-first depths
//! and compute the three statistics. Only reading the text and rendering
//! the numbers are left to the caller.

use vstd::prelude::*;
use vstd::pervasive::unreached;
use crate::builder::{construct_connections, spec_incidence};
use crate::cycle::has_cycle;
use crate::depth::{construct_connections_util, depth_array_ok};
use crate::graph::cyclic;
use crate::parse::{int_val, is_int_token, lemma_digits_val_nonneg, spec_lines, unsigned_part};
use crate::stats::{
    calculate_average_depth, calculate_average_in_references, calculate_average_nodes_per_depth,
    crowded_levels_upto, crowded_members_upto, sum_depths, sum_lens,
};
use crate::validate::{valid_input, validate_result, ParseError};

verus! {

/// The three statistics of an acyclic graph, each as an exact ratio: the
/// mean is the sum divided by the count. A count of zero leaves the
/// quotient undefined, as for crowded levels when every level holds a
/// single node.
#[derive(Clone, Copy, Debug, PartialEq, Eq, Structural)]
pub struct GraphStatistics {
    /// Sum of all entries of the depth array.
    pub depth_sum: i128,
    /// Number of entries of the depth array.
    pub depth_count: usize,
    /// Number of nodes whose depth is shared by more than one node.
    pub crowded_member_count: usize,
    /// Number of depth values shared by more than one node.
    pub crowded_level_count: usize,
    /// Sum of all bucket lengths of the incidence structure.
    pub reference_sum: u128,
    /// Number of buckets of the incidence structure.
    pub bucket_count: usize,
}

/// The outcome of analysing a well-formed input text.
#[derive(Clone, Copy, Debug, PartialEq, Eq, Structural)]
pub enum Analysis {
    /// The graph holds a cycle; no statistics are computed.
    Cyclic,
    /// The graph is acyclic, with its statistics.
    Acyclic(GraphStatistics),
}

/// The statistics are those of the breadth-first depth array of `g` and of
/// `g`'s buckets themselves.
pub open spec fn stats_ok(g: Seq<Seq<i32>>, st: GraphStatistics) -> bool {
    exists|dp: Seq<i32>|
        {
            &&& #[trigger] depth_array_ok(g, dp)
            &&& st.depth_sum as int == sum_depths(dp)
            &&& st.depth_count == dp.len()
            &&& st.crowded_member_count == crowded_members_upto(dp, dp.len() as int)
            &&& st.crowded_level_count == crowded_levels_upto(dp, dp.len() as int)
            &&& st.reference_sum as int == sum_lens(g)
            &&& st.bucket_count == g.len()
        }
}

/// Runs the whole pipeline on a raw input text: rejects it with the first
/// broken validation rule, reports a cyclic graph, and otherwise returns
/// the three statistics of the acyclic graph.
pub fn analyze(contents: &Vec<u8>) -> (r: Result<Analysis, ParseError>)
    ensures
        r is Ok <==> valid_input(contents@),
        r matches Err(e) ==> validate_result(contents@) == Some(e),
        r matches Ok(a) ==> {
            &&& (a is Cyclic <==> cyclic(spec_incidence(contents@)))
            &&& (a matches Analysis::Acyclic(st) ==> stats_ok(spec_incidence(contents@), st))
        },
{
    let ghost g = spec_incidence(contents@);
    let (count, conns) = match construct_connections(contents) {
        Ok(p) => p,
        Err(e) => {
            return Err(e);
        },
    };
    if has_cycle(count, &conns) {
        return Ok(Analysis::Cyclic);
    }
    proof {
        let ls = spec_lines(contents@);
        assert(is_int_token(ls[0]));
        assert(ls.len() - 1 == int_val(ls[0]));
        lemma_digits_val_nonneg(unsigned_part(ls[0]));
        assert(int_val(ls[0]) <= 0x7fff_ffff);
        assert(1 <= count <= 0x8000_0000);
    }
    let dep = construct_connections_util(count, &conns);
    let (depth_sum, depth_count) = match calculate_average_depth(&dep) {
        Ok(p) => p,
        Err(_) => unreached(),
    };
    let (crowded_member_count, crowded_level_count) = match calculate_average_nodes_per_depth(
        &dep,
    ) {
        Ok(p) => p,
        Err(_) => unreached(),
    };
    let (reference_sum, bucket_count) = match calculate_average_in_references(&conns) {
        Ok(p) => p,
        Err(_) => unreached(),
    };
    let st = GraphStatistics {
        depth_sum,
        depth_count,
        crowded_member_count,
        crowded_level_count,
        reference_sum,
        bucket_count,
    };
    proof {
        assert(depth_array_ok(g, dep@));
        assert(stats_ok(g, st));
    }
    Ok(Analysis::Acyclic(st))
}

} // verus!
