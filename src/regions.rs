//! Disjoint output regions for chromosomes written side by side: each
//! region starts where the one before it ends.
use vstd::prelude::*;

verus! {

/// The sum of `sizes`.
pub open spec fn total(sizes: Seq<usize>) -> nat
    decreases sizes.len(),
{
    if sizes.len() == 0 {
        0
    } else {
        total(sizes.drop_last()) + sizes.last() as nat
    }
}

/// `o` holds the start of each region and, last, the end of the last one.
pub open spec fn offsets_of(o: Seq<usize>, sizes: Seq<usize>) -> bool {
    &&& o.len() == sizes.len() + 1
    &&& o[0] == 0
    &&& forall|i: int| 0 <= i < sizes.len() ==> #[trigger] o[i + 1] == o[i] + sizes[i]
}

/// The offsets of regions of the given sizes, laid end to end from zero;
/// `None` when their total passes `usize::MAX`.
pub fn region_offsets(sizes: &Vec<usize>) -> (r: Option<Vec<usize>>)
    ensures
        match r {
            Some(o) => offsets_of(o@, sizes@) && o@.last() == total(sizes@),
            None => total(sizes@) > usize::MAX,
        },
{
    let mut o: Vec<usize> = Vec::new();
    o.push(0);
    let mut i: usize = 0;
    while i < sizes.len()
        invariant
            i <= sizes@.len(),
            o@.len() == i + 1,
            o@[0] == 0,
            forall|k: int| 0 <= k < i ==> #[trigger] o@[k + 1] == o@[k] + sizes@[k],
            o@[i as int] == total(sizes@.take(i as int)),
        decreases sizes@.len() - i,
    {
        proof {
            assert(sizes@.take(i + 1).drop_last() =~= sizes@.take(i as int));
            lemma_total_prefix(sizes@, i + 1);
        }
        let last = o[i];
        if last > usize::MAX - sizes[i] {
            return None;
        }
        o.push(last + sizes[i]);
        i = i + 1;
    }
    proof {
        assert(sizes@.take(sizes@.len() as int) =~= sizes@);
    }
    Some(o)
}

proof fn lemma_total_prefix(sizes: Seq<usize>, i: int)
    requires
        0 <= i <= sizes.len(),
    ensures
        total(sizes.take(i)) <= total(sizes),
    decreases sizes.len(),
{
    if i < sizes.len() {
        assert(sizes.drop_last().take(i) =~= sizes.take(i));
        lemma_total_prefix(sizes.drop_last(), i);
    } else {
        assert(sizes.take(i) =~= sizes);
    }
}

/// Regions laid end to end do not overlap: each ends no later than any
/// later one starts, and the last ends at the total.
pub proof fn lemma_regions_disjoint(o: Seq<usize>, sizes: Seq<usize>, i: int, j: int)
    requires
        offsets_of(o, sizes),
        0 <= i < j < sizes.len(),
    ensures
        o[i] + sizes[i] <= o[j],
    decreases j - i,
{
    assert(o[i + 1] == o[i] + sizes[i]);
    if i + 1 < j {
        lemma_regions_disjoint(o, sizes, i + 1, j);
        assert(o[i + 1 + 1] == o[i + 1] + sizes[i + 1]);
    }
}

} // verus!
