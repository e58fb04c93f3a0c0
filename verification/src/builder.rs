//! The graph builder: turns a raw input text into the declared node count
//! plus one (for the implicit root) and the incidence structure. Each edge
//! declaration appends its own 1-indexed line position — not the referenced
//! node values — to the bucket of each of its two references; this literal
//! behaviour is the structure's sole adjacency encoding.

use vstd::prelude::*;
use crate::graph::graph_wf;
use crate::parse::{int_tokens, int_val, int_vals, spec_lines, split_lines};
use crate::validate::{
    edge_lines_error, line_error, valid_input, validate, validate_result, ParseError,
};

verus! {

/// The edge declaration at 1-indexed line position `i` referencing `left`
/// and `right` appends `i` to bucket `left - 1` and to bucket `right - 1`
/// (twice to the same bucket when the references coincide).
pub open spec fn add_edge(bs: Seq<Seq<i32>>, left: int, right: int, i: int) -> Seq<Seq<i32>>
    recommends
        1 <= left <= bs.len(),
        1 <= right <= bs.len(),
{
    let b1 = bs.update(left - 1, bs[left - 1].push(i as i32));
    b1.update(right - 1, b1[right - 1].push(i as i32))
}

/// The incidence structure after the first `k` edge lines of `ls` have been
/// recorded into `nodes` initially empty buckets.
pub open spec fn incidence_upto(ls: Seq<Seq<u8>>, nodes: int, k: int) -> Seq<Seq<i32>>
    decreases k,
{
    if k <= 0 {
        Seq::new(nodes as nat, |b: int| Seq::<i32>::empty())
    } else {
        add_edge(
            incidence_upto(ls, nodes, k - 1),
            int_vals(ls[k])[0] as int,
            int_vals(ls[k])[1] as int,
            k,
        )
    }
}

/// The incidence structure of a well-formed input text: one bucket per node
/// index `0..=n`, each holding the 1-indexed line positions of the edge
/// declarations that reference it, in line order.
pub open spec fn spec_incidence(t: Seq<u8>) -> Seq<Seq<i32>> {
    let ls = spec_lines(t);
    incidence_upto(ls, int_val(ls[0]) + 1, ls.len() - 1)
}

/// When no edge line from `i` on is faulty, every single one of them is
/// free of per-line faults.
proof fn lemma_lines_ok(ls: Seq<Seq<u8>>, i: int)
    requires
        1 <= i,
        edge_lines_error(ls, i) is None,
    ensures
        forall|k: int| i <= k < ls.len() ==> line_error(#[trigger] ls[k]) is None,
    decreases ls.len() - i,
{
    if i < ls.len() {
        lemma_lines_ok(ls, i + 1);
    }
}

/// Parses the validated text into the node count (the declared count plus
/// one, for the implicit root) and the incidence structure. Succeeds on
/// exactly the texts the validator accepts, and reports the first broken
/// validation rule otherwise.
#[verifier::loop_isolation(false)]
pub fn construct_connections(contents: &Vec<u8>) -> (r: Result<(usize, Vec<Vec<i32>>), ParseError>)
    ensures
        r is Ok <==> valid_input(contents@),
        r matches Err(e) ==> validate_result(contents@) == Some(e),
        r matches Ok((count, conns)) ==> {
            let ls = spec_lines(contents@);
            &&& count == int_val(ls[0]) + 1
            &&& conns@.len() == count
            &&& conns.deep_view() == spec_incidence(contents@)
            &&& graph_wf(conns.deep_view())
            &&& forall|b: int, t: int|
                0 <= b < conns.deep_view().len() && 0 <= t < conns.deep_view()[b].len()
                    ==> 1 <= #[trigger] conns.deep_view()[b][t] <= int_val(ls[0])
        },
{
    let n = match validate(contents) {
        Ok(v) => v,
        Err(e) => {
            return Err(e);
        },
    };
    let ghost ls = spec_lines(contents@);
    proof {
        lemma_lines_ok(ls, 1);
    }
    let lines = split_lines(contents);
    proof {
        assert(lines@.len() == ls.len());
        assert forall|i: int| 0 <= i < lines@.len() implies lines@[i]@ == ls[i] by {
            assert(lines.deep_view()[i] == lines@[i].deep_view());
            assert(lines@[i].deep_view() =~= lines@[i]@);
        }
    }
    let nodes = (n as usize) + 1;
    let mut conns: Vec<Vec<i32>> = Vec::new();
    while conns.len() < nodes
        invariant
            conns@.len() <= nodes,
            forall|b: int| 0 <= b < conns@.len() ==> #[trigger] conns.deep_view()[b]
                == Seq::<i32>::empty(),
        decreases nodes - conns@.len(),
    {
        let ghost prevv = conns@;
        let ghost prev_dv = conns.deep_view();
        conns.push(Vec::new());
        proof {
            assert forall|b: int| 0 <= b < conns@.len() implies #[trigger] conns.deep_view()[b]
                == Seq::<i32>::empty() by {
                assert(conns.deep_view()[b] == conns@[b].deep_view());
                if b < prevv.len() {
                    assert(conns@[b] == prevv[b]);
                    assert(prev_dv[b] == prevv[b].deep_view());
                } else {
                    assert(conns@[b].deep_view() =~= conns@[b]@);
                    assert(conns@[b]@ =~= Seq::<i32>::empty());
                }
            }
        }
    }
    proof {
        assert(conns.deep_view() =~~= incidence_upto(ls, nodes as int, 0));
    }
    let mut idx: usize = 1;
    while idx < lines.len()
        invariant
            1 <= idx <= lines@.len(),
            conns@.len() == nodes,
            conns.deep_view() == incidence_upto(ls, nodes as int, idx - 1),
            forall|b: int, t: int|
                0 <= b < conns.deep_view().len() && 0 <= t < conns.deep_view()[b].len()
                    ==> 1 <= #[trigger] conns.deep_view()[b][t] < idx,
        decreases lines@.len() - idx,
    {
        let vals = int_tokens(&lines[idx]);
        proof {
            assert(vals@ == int_vals(ls[idx as int]));
            assert(line_error(ls[idx as int]) is None);
            assert(vals@[0] == int_vals(ls[idx as int])[0]);
            assert(vals@[1] == int_vals(ls[idx as int])[1]);
            assert(1 <= int_vals(ls[idx as int])[0] <= n + 1);
            assert(1 <= int_vals(ls[idx as int])[1] <= n + 1);
        }
        let left = vals[0] as usize;
        let right = vals[1] as usize;
        let ghost before = conns.deep_view();
        conns[left - 1].push(idx as i32);
        proof {
            assert(conns.deep_view() =~~= before.update(
                left - 1,
                before[left - 1].push(idx as i32),
            ));
        }
        let ghost mid = conns.deep_view();
        conns[right - 1].push(idx as i32);
        proof {
            assert(conns.deep_view() =~~= mid.update(right - 1, mid[right - 1].push(idx as i32)));
            assert(conns.deep_view() == add_edge(before, left as int, right as int, idx as int));
            assert(conns.deep_view() == incidence_upto(ls, nodes as int, idx as int));
        }
        idx = idx + 1;
    }
    proof {
        assert(idx == ls.len());
        assert(idx - 1 == n);
        assert(conns.deep_view() == spec_incidence(contents@));
    }
    Ok((nodes, conns))
}

} // verus!
