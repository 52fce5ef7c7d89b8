use vstd::prelude::*;

use crate::outcome::Outcome;
use crate::pair::Input;
use crate::table::RelationTable;

verus! {

/// Whether the table says that symbol `x` wins outright against symbol `y`.
/// A draw or a loss never counts.
pub open spec fn spec_beats(t: RelationTable, x: int, y: int) -> bool {
    t.spec_cell(x, y) == Some(Outcome::Win)
}

/// The domination rule: a candidate pair dominates a query pair when, for
/// each of the query's two symbols independently, at least one of the
/// candidate's two symbols beats it.
pub open spec fn dominates(t: RelationTable, c: Input, q: Input) -> bool {
    &&& (spec_beats(t, c.0 as int, q.0 as int) || spec_beats(t, c.1 as int, q.0 as int))
    &&& (spec_beats(t, c.0 as int, q.1 as int) || spec_beats(t, c.1 as int, q.1 as int))
}

/// How many pairs of the candidate sequence dominate the query pair,
/// duplicates counted separately.
pub open spec fn count_dominators(t: RelationTable, candidates: Seq<Input>, q: Input) -> nat
    decreases candidates.len(),
{
    if candidates.len() == 0 {
        0
    } else {
        count_dominators(t, candidates.drop_last(), q) + (if dominates(
            t,
            candidates.last(),
            q,
        ) {
            1nat
        } else {
            0nat
        })
    }
}

/// Both of the pair's symbols are in the table's declared range.
pub open spec fn pair_in_range(t: RelationTable, p: Input) -> bool {
    &&& 1 <= p.0 && p.0 as int <= t.spec_symbol_count()
    &&& 1 <= p.1 && p.1 as int <= t.spec_symbol_count()
}

/// Whether candidate symbol `x` beats query symbol `y`, read from the
/// table.
fn beats(table: &RelationTable, x: usize, y: usize) -> (b: bool)
    requires
        table.wf(),
        table.total(),
        1 <= x as int <= table.spec_symbol_count(),
        1 <= y as int <= table.spec_symbol_count(),
    ensures
        b == spec_beats(*table, x as int, y as int),
{
    match table.lookup(x, y) {
        Ok(o) => o == Outcome::Win,
        Err(_) => {
            proof {
                assert(table.spec_cell(x as int, y as int) is Some);
                assert(false);
            }
            false
        },
    }
}

/// For each query pair, how many candidate pairs dominate it. The result
/// is positionally aligned with the query list; the inputs are read only.
pub fn resolve(candidates: &Vec<Input>, queries: &Vec<Input>, table: &RelationTable) -> (r: Vec<
    u32,
>)
    requires
        table.wf(),
        table.total(),
        forall|k: int| 0 <= k < candidates@.len() ==> pair_in_range(*table, #[trigger] candidates@[k]),
        forall|k: int| 0 <= k < queries@.len() ==> pair_in_range(*table, #[trigger] queries@[k]),
        candidates@.len() <= u32::MAX,
    ensures
        r@.len() == queries@.len(),
        forall|k: int|
            0 <= k < queries@.len() ==> #[trigger] r@[k] as nat == count_dominators(
                *table,
                candidates@,
                queries@[k],
            ),
{
    let mut out: Vec<u32> = Vec::new();
    let mut k: usize = 0;
    while k < queries.len()
        invariant
            k <= queries@.len(),
            out@.len() == k,
            table.wf(),
            table.total(),
            forall|m: int|
                0 <= m < candidates@.len() ==> pair_in_range(*table, #[trigger] candidates@[m]),
            forall|m: int|
                0 <= m < queries@.len() ==> pair_in_range(*table, #[trigger] queries@[m]),
            candidates@.len() <= u32::MAX,
            forall|m: int|
                0 <= m < k ==> #[trigger] out@[m] as nat == count_dominators(
                    *table,
                    candidates@,
                    queries@[m],
                ),
        decreases queries@.len() - k,
    {
        let q = queries[k];
        let mut count: u32 = 0;
        let mut c: usize = 0;
        while c < candidates.len()
            invariant
                c <= candidates@.len(),
                table.wf(),
                table.total(),
                forall|m: int|
                    0 <= m < candidates@.len() ==> pair_in_range(*table, #[trigger] candidates@[m]),
                candidates@.len() <= u32::MAX,
                pair_in_range(*table, q),
                count <= c,
                count as nat == count_dominators(*table, candidates@.take(c as int), q),
            decreases candidates@.len() - c,
        {
            let cand = candidates[c];
            let covers_first = beats(table, cand.0, q.0) || beats(table, cand.1, q.0);
            let covers_second = beats(table, cand.0, q.1) || beats(table, cand.1, q.1);
            if covers_first && covers_second {
                count = count + 1;
            }
            proof {
                assert(candidates@.take(c as int + 1).drop_last() =~= candidates@.take(c as int));
                assert(candidates@.take(c as int + 1).last() == candidates@[c as int]);
            }
            c = c + 1;
        }
        proof {
            assert(candidates@.take(candidates@.len() as int) =~= candidates@);
        }
        out.push(count);
        k = k + 1;
    }
    out
}

/// Swapping a candidate's two symbols never changes whether it dominates a
/// query: the coverage checks do not care which candidate symbol supplies
/// which coverage.
pub proof fn lemma_dominates_swap(t: RelationTable, c: Input, swapped: Input, q: Input)
    requires
        swapped.0 == c.1,
        swapped.1 == c.0,
    ensures
        dominates(t, c, q) == dominates(t, swapped, q),
{
}

/// An empty candidate list dominates nothing: the count for every query is
/// zero.
pub proof fn lemma_count_dominators_empty(t: RelationTable, q: Input)
    ensures
        count_dominators(t, Seq::<Input>::empty(), q) == 0,
{
}

} // verus!
