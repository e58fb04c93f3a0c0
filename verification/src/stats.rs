//! The three aggregate statistics over the depth array and the incidence
//! structure. Each average is returned as an exact ratio: a numerator (the
//! sum being averaged) and a denominator (the number of items), so that the
//! mean is pinned down exactly; rendering the quotient is left to the caller.

use vstd::prelude::*;

verus! {

/// Error of a statistic whose input is empty: the mean is undefined.
#[derive(Clone, Copy, Debug, PartialEq, Eq, Structural)]
pub enum StatError {
    StatisticUndefined,
}

/// Sum of all depth values in `s`, as a mathematical integer.
pub open spec fn sum_depths(s: Seq<i32>) -> int
    decreases s.len(),
{
    if s.len() == 0 {
        0
    } else {
        sum_depths(s.drop_last()) + s.last()
    }
}

/// How many of the first `j` elements of `s` equal `x`.
pub open spec fn count_upto(s: Seq<i32>, x: i32, j: int) -> int
    decreases j,
{
    if j <= 0 {
        0
    } else {
        count_upto(s, x, j - 1) + if s[j - 1] == x {
            1int
        } else {
            0int
        }
    }
}

/// How many elements of `s` equal `x`: the size of the group of value `x`.
pub open spec fn count_eq(s: Seq<i32>, x: i32) -> int {
    count_upto(s, x, s.len() as int)
}

/// The element at `i` is the first occurrence of its value in `s`.
pub open spec fn is_first_occurrence(s: Seq<i32>, i: int) -> bool {
    forall|j: int| 0 <= j < i ==> s[j] != s[i]
}

/// Among the first `i` elements, how many belong to a crowded group (a value
/// shared by more than one element of `s`). Over the whole sequence this is
/// the sum of the sizes of all crowded groups.
pub open spec fn crowded_members_upto(s: Seq<i32>, i: int) -> int
    decreases i,
{
    if i <= 0 {
        0
    } else {
        crowded_members_upto(s, i - 1) + if count_eq(s, s[i - 1]) > 1 {
            1int
        } else {
            0int
        }
    }
}

/// Among the first `i` elements, how many are the first occurrence of a
/// crowded value. Over the whole sequence this is the number of crowded
/// groups.
pub open spec fn crowded_levels_upto(s: Seq<i32>, i: int) -> int
    decreases i,
{
    if i <= 0 {
        0
    } else {
        crowded_levels_upto(s, i - 1) + if count_eq(s, s[i - 1]) > 1 && is_first_occurrence(s, i - 1) {
            1int
        } else {
            0int
        }
    }
}

/// Sum of the lengths of all buckets in `g`.
pub open spec fn sum_lens(g: Seq<Seq<i32>>) -> int
    decreases g.len(),
{
    if g.len() == 0 {
        0
    } else {
        sum_lens(g.drop_last()) + g.last().len()
    }
}

/// Average depth of the array `dep`, as the exact ratio
/// (sum of all depths, number of entries). Fails only on an empty array.
#[verifier::loop_isolation(false)]
pub fn calculate_average_depth(dep: &Vec<i32>) -> (r: Result<(i128, usize), StatError>)
    ensures
        r is Err <==> dep@.len() == 0,
        r is Err ==> r == Result::<(i128, usize), StatError>::Err(StatError::StatisticUndefined),
        r matches Ok((num, den)) ==> num as int == sum_depths(dep@) && den == dep@.len(),
{
    if dep.len() == 0 {
        return Err(StatError::StatisticUndefined);
    }
    let mut sum: i128 = 0;
    let mut i: usize = 0;
    while i < dep.len()
        invariant
            i <= dep@.len(),
            sum as int == sum_depths(dep@.subrange(0, i as int)),
            -(i as int) * 0x8000_0000 <= sum as int <= (i as int) * 0x7fff_ffff,
        decreases dep@.len() - i,
    {
        proof {
            assert(dep@.subrange(0, i + 1).drop_last() =~= dep@.subrange(0, i as int));
            assert(dep@.subrange(0, i + 1).last() == dep@[i as int]);
            assert(-(i + 1int) * 0x8000_0000 == -(i as int) * 0x8000_0000 - 0x8000_0000);
            assert((i + 1int) * 0x7fff_ffff == (i as int) * 0x7fff_ffff + 0x7fff_ffff);
        }
        sum = sum + (dep[i] as i128);
        i = i + 1;
    }
    proof {
        assert(dep@.subrange(0, dep@.len() as int) =~= dep@);
    }
    Ok((sum, dep.len()))
}

/// Average group size among crowded depth levels, as the exact ratio
/// (number of elements in crowded groups, number of crowded groups).
/// Fails only on an empty array; with no crowded group the ratio is (0, 0)
/// and its quotient is left undefined for the caller.
#[verifier::loop_isolation(false)]
pub fn calculate_average_nodes_per_depth(dep: &Vec<i32>) -> (r: Result<(usize, usize), StatError>)
    ensures
        r is Err <==> dep@.len() == 0,
        r is Err ==> r == Result::<(usize, usize), StatError>::Err(StatError::StatisticUndefined),
        r matches Ok((num, den)) ==> num == crowded_members_upto(dep@, dep@.len() as int)
            && den == crowded_levels_upto(dep@, dep@.len() as int),
{
    if dep.len() == 0 {
        return Err(StatError::StatisticUndefined);
    }
    let n = dep.len();
    let mut members: usize = 0;
    let mut levels: usize = 0;
    let mut i: usize = 0;
    while i < n
        invariant
            i <= n,
            members == crowded_members_upto(dep@, i as int),
            levels == crowded_levels_upto(dep@, i as int),
            members <= i,
            levels <= i,
        decreases n - i,
    {
        let mut cnt: usize = 0;
        let mut j: usize = 0;
        while j < n
            invariant
                j <= n,
                cnt == count_upto(dep@, dep@[i as int], j as int),
                cnt <= j,
            decreases n - j,
        {
            if dep[j] == dep[i] {
                cnt = cnt + 1;
            }
            j = j + 1;
        }
        let mut first: bool = true;
        let mut k: usize = 0;
        while k < i
            invariant
                k <= i,
                first == (forall|t: int| 0 <= t < k ==> dep@[t] != dep@[i as int]),
            decreases i - k,
        {
            if dep[k] == dep[i] {
                first = false;
            }
            k = k + 1;
        }
        if cnt > 1 {
            members = members + 1;
            if first {
                levels = levels + 1;
            }
        }
        i = i + 1;
    }
    Ok((members, levels))
}

/// Average number of incident-edge references per node, as the exact ratio
/// (sum of all bucket lengths, number of buckets). Fails only when the
/// incidence structure has no buckets.
#[verifier::loop_isolation(false)]
pub fn calculate_average_in_references(connections: &Vec<Vec<i32>>) -> (r: Result<
    (u128, usize),
    StatError,
>)
    ensures
        r is Err <==> connections@.len() == 0,
        r is Err ==> r == Result::<(u128, usize), StatError>::Err(StatError::StatisticUndefined),
        r matches Ok((num, den)) ==> num as int == sum_lens(connections.deep_view())
            && den == connections@.len(),
{
    if connections.len() == 0 {
        return Err(StatError::StatisticUndefined);
    }
    let ghost g = connections.deep_view();
    let mut sum: u128 = 0;
    let mut i: usize = 0;
    while i < connections.len()
        invariant
            i <= g.len(),
            g.len() == connections@.len(),
            forall|t: int| 0 <= t < g.len() ==> g[t] == connections@[t]@,
            sum as int == sum_lens(g.subrange(0, i as int)),
            sum as int <= (i as int) * 0xffff_ffff_ffff_ffff,
        decreases g.len() - i,
    {
        proof {
            assert(g.subrange(0, i + 1).drop_last() =~= g.subrange(0, i as int));
            assert(g.subrange(0, i + 1).last() == g[i as int]);
            assert((i + 1int) * 0xffff_ffff_ffff_ffff == (i as int) * 0xffff_ffff_ffff_ffff
                + 0xffff_ffff_ffff_ffff);
        }
        sum = sum + (connections[i].len() as u128);
        i = i + 1;
    }
    proof {
        assert(g.subrange(0, g.len() as int) =~= g);
    }
    Ok((sum, connections.len()))
}

} // verus!
