//! Natural order: digit runs compare as numbers. The comparison itself is
//! `natord`'s; this module sorts with it.
use vstd::prelude::*;
use std::cmp::Ordering;

verus! {

/// `natord::compare` on the text that two byte strings hold.
pub uninterp spec fn natural_order(a: Seq<u8>, b: Seq<u8>) -> Ordering;

pub open spec fn reversed(o: Ordering) -> Ordering {
    match o {
        Ordering::Less => Ordering::Greater,
        Ordering::Equal => Ordering::Equal,
        Ordering::Greater => Ordering::Less,
    }
}

/// Relies on `natord::compare`, given both byte strings read as UTF-8 by
/// `String::from_utf8_lossy`. The result depends on the bytes alone, and
/// swapping the arguments reverses it: `compare_iter` treats its left and
/// right sides alike at every step.
#[verifier::external_body]
fn natord_compare(a: &[u8], b: &[u8]) -> (r: Ordering)
    ensures
        r == natural_order(a@, b@),
        natural_order(b@, a@) == reversed(r),
{
    natord::compare(&String::from_utf8_lossy(a), &String::from_utf8_lossy(b))
}

/// Compares two byte strings in natural order.
pub fn natural_cmp(a: &[u8], b: &[u8]) -> (r: Ordering)
    ensures
        r == natural_order(a@, b@),
        natural_order(b@, a@) == reversed(r),
{
    natord_compare(a, b)
}

/// The name at `k` does not come after the one at `k + 1`.
pub open spec fn in_order<'a>(s: Seq<&'a [u8]>, k: int) -> bool {
    natural_order(s[k]@, s[k + 1]@) != Ordering::Greater
}

/// No name in `s` comes after the one that follows it.
pub open spec fn naturally_sorted<'a>(s: Seq<&'a [u8]>) -> bool {
    forall|k: int| 0 <= k < s.len() - 1 ==> #[trigger] in_order(s, k)
}

/// A key that orders by natural order.
#[derive(Debug, PartialEq, Eq)]
pub struct CowNaturalSort(pub Vec<u8>);

impl CowNaturalSort {
    pub fn new(s: Vec<u8>) -> (r: Self)
        ensures
            r.0@ == s@,
    {
        CowNaturalSort(s)
    }

    /// The natural order of two keys.
    pub fn natural_cmp(&self, other: &Self) -> (r: Ordering)
        ensures
            r == natural_order(self.0@, other.0@),
            natural_order(other.0@, self.0@) == reversed(r),
    {
        natural_cmp(self.0.as_slice(), other.0.as_slice())
    }
}

/// Sorts names in natural order (insertion sort: a name moves in front of
/// each neighbour that natural order puts after it).
pub fn sort_natural<'a>(v: &mut Vec<&'a [u8]>)
    ensures
        final(v)@.to_multiset() == old(v)@.to_multiset(),
        naturally_sorted(final(v)@),
{
    let n = v.len();
    if n == 0 {
        return ;
    }
    let mut i: usize = 1;
    while i < n
        invariant
            1 <= i <= n,
            v@.len() == n,
            v@.to_multiset() == old(v)@.to_multiset(),
            forall|k: int| 0 <= k < i - 1 ==> #[trigger] in_order(v@, k),
        decreases n - i,
    {
        let mut j = i;
        while j > 0 && matches!(natural_cmp(v[j - 1], v[j]), Ordering::Greater)
            invariant
                0 <= j <= i < n,
                v@.len() == n,
                v@.to_multiset() == old(v)@.to_multiset(),
                forall|k: int| 0 <= k < j - 1 ==> #[trigger] in_order(v@, k),
                forall|k: int| j < k < i ==> #[trigger] in_order(v@, k),
                j < i ==> natural_order(v@[j as int]@, v@[j + 1]@) == Ordering::Less,
                0 < j < i ==> natural_order(v@[j - 1]@, v@[j + 1]@) != Ordering::Greater,
            decreases j,
        {
            let ghost before = v@;
            let a = v[j - 1];
            let b = v[j];
            v.set(j - 1, b);
            v.set(j, a);
            proof {
                assert(v@ =~= before.update(j - 1, b).update(j as int, a));
                lemma_swap_multiset(before, j - 1, j as int);
                assert forall|k: int| 0 <= k < j - 2 implies #[trigger] in_order(v@, k) by {
                    assert(in_order(before, k));
                }
                assert forall|k: int| j - 1 < k < i implies #[trigger] in_order(v@, k) by {
                    if k > j {
                        assert(in_order(before, k));
                    }
                }
                if j >= 2 {
                    assert(in_order(before, j - 2));
                }
            }
            j = j - 1;
        }
        proof {
            assert forall|k: int| 0 <= k < i implies #[trigger] in_order(v@, k) by {
                if k == j {
                    assert(natural_order(v@[j as int]@, v@[j + 1]@) == Ordering::Less);
                }
            }
        }
        i = i + 1;
    }
}

proof fn lemma_swap_multiset<T>(s: Seq<T>, i: int, j: int)
    requires
        0 <= i < s.len(),
        0 <= j < s.len(),
    ensures
        s.update(i, s[j]).update(j, s[i]).to_multiset() == s.to_multiset(),
{
    broadcast use vstd::seq_lib::group_to_multiset_ensures;

    let t = s.update(i, s[j]);
    assert(t.to_multiset() == s.to_multiset().remove(s[i]).insert(s[j]));
    assert(t.update(j, s[i]).to_multiset() == t.to_multiset().remove(t[j]).insert(s[i]));
    if i == j {
        assert(s.update(i, s[j]).update(j, s[i]) =~= s);
    } else {
        assert(t[j] == s[j]);
        assert(s.to_multiset().remove(s[i]).insert(s[j]).remove(s[j]).insert(s[i])
            =~= s.to_multiset());
    }
}

} // verus!
