//! Byte-level helpers shared by the record and attribute parsers: splitting
//! on a delimiter and trimming, each stated over `Seq<u8>` and computed over
//! index ranges of a borrowed slice.
use vstd::prelude::*;

verus! {

/// The pieces of `s` between occurrences of `d`, as `<[u8]>::split` gives
/// them: one more piece than there are delimiters, empty pieces kept.
pub open spec fn split(s: Seq<u8>, d: u8) -> Seq<Seq<u8>>
    decreases s.len(),
{
    if s.len() == 0 {
        seq![Seq::<u8>::empty()]
    } else {
        let p = split(s.drop_last(), d);
        if s.last() == d {
            p.push(Seq::<u8>::empty())
        } else {
            p.update(p.len() - 1, p.last().push(s.last()))
        }
    }
}

/// `s` without its leading run of `c`.
pub open spec fn skip_leading(s: Seq<u8>, c: u8) -> Seq<u8>
    decreases s.len(),
{
    if s.len() > 0 && s[0] == c {
        skip_leading(s.drop_first(), c)
    } else {
        s
    }
}

/// `s` without its trailing run of `c`.
pub open spec fn skip_trailing(s: Seq<u8>, c: u8) -> Seq<u8>
    decreases s.len(),
{
    if s.len() > 0 && s.last() == c {
        skip_trailing(s.drop_last(), c)
    } else {
        s
    }
}

/// The ASCII characters that `char::is_whitespace` accepts.
pub open spec fn is_ascii_space(b: u8) -> bool {
    b == 9 || b == 10 || b == 11 || b == 12 || b == 13 || b == 32
}

/// `s` without its trailing ASCII whitespace.
pub open spec fn trim_end(s: Seq<u8>) -> Seq<u8>
    decreases s.len(),
{
    if s.len() > 0 && is_ascii_space(s.last()) {
        trim_end(s.drop_last())
    } else {
        s
    }
}

/// `s` with every leading and trailing double quote removed.
pub open spec fn trim_quotes(s: Seq<u8>) -> Seq<u8> {
    skip_trailing(skip_leading(s, 34), 34)
}

/// The contents of an optional slice.
pub open spec fn opt_view(o: Option<&[u8]>) -> Option<Seq<u8>> {
    match o {
        Some(v) => Some(v@),
        None => None,
    }
}

/// `s` begins with `p`.
pub open spec fn has_prefix(s: Seq<u8>, p: Seq<u8>) -> bool {
    p.len() <= s.len() && s.subrange(0, p.len() as int) == p
}

pub proof fn lemma_split_nonempty(s: Seq<u8>, d: u8)
    ensures
        split(s, d).len() >= 1,
    decreases s.len(),
{
    if s.len() > 0 {
        lemma_split_nonempty(s.drop_last(), d);
    }
}

/// The ranges of `s` that `split(s@, d)` names, in order.
pub fn split_ranges(s: &[u8], d: u8) -> (r: Vec<(usize, usize)>)
    ensures
        r@.len() == split(s@, d).len(),
        forall|k: int|
            0 <= k < r@.len() ==> {
                &&& #[trigger] r@[k].0 <= r@[k].1 <= s@.len()
                &&& s@.subrange(r@[k].0 as int, r@[k].1 as int) == split(s@, d)[k]
            },
{
    let mut r: Vec<(usize, usize)> = Vec::new();
    let mut start: usize = 0;
    let mut i: usize = 0;
    assert(s@.subrange(0, 0) =~= Seq::<u8>::empty());
    while i < s.len()
        invariant
            start <= i <= s@.len(),
            r@.len() + 1 == split(s@.subrange(0, i as int), d).len(),
            split(s@.subrange(0, i as int), d).last() == s@.subrange(start as int, i as int),
            forall|k: int|
                0 <= k < r@.len() ==> {
                    &&& #[trigger] r@[k].0 <= r@[k].1 <= s@.len()
                    &&& s@.subrange(r@[k].0 as int, r@[k].1 as int) == split(
                        s@.subrange(0, i as int),
                        d,
                    )[k]
                },
        decreases s@.len() - i,
    {
        let ghost pre = s@.subrange(0, i as int);
        let ghost next = s@.subrange(0, i + 1);
        let ghost old_r = r@;
        proof {
            lemma_split_step(s@, i as int, d);
        }
        if s[i] == d {
            r.push((start, i));
            start = i + 1;
            proof {
                assert(s@.subrange(start as int, i + 1) =~= Seq::<u8>::empty());
            }
        } else {
            proof {
                assert(s@.subrange(start as int, i + 1) =~= s@.subrange(start as int, i as int).push(
                    s@[i as int],
                ));
            }
        }
        proof {
            assert forall|k: int| 0 <= k < r@.len() implies {
                &&& #[trigger] r@[k].0 <= r@[k].1 <= s@.len()
                &&& s@.subrange(r@[k].0 as int, r@[k].1 as int) == split(next, d)[k]
            } by {
                if k < old_r.len() {
                    assert(r@[k] == old_r[k]);
                }
            }
        }
        i = i + 1;
        proof {
            assert(next == s@.subrange(0, i as int));
            assert(forall|k: int|
                0 <= k < r@.len() ==> s@.subrange(#[trigger] r@[k].0 as int, r@[k].1 as int)
                    == split(s@.subrange(0, i as int), d)[k]);
        }
    }
    proof {
        assert(s@.subrange(0, s@.len() as int) =~= s@);
        lemma_split_nonempty(s@, d);
    }
    r.push((start, i));
    r
}

pub proof fn lemma_split_step(s: Seq<u8>, i: int, d: u8)
    requires
        0 <= i < s.len(),
    ensures
        s[i] == d ==> split(s.subrange(0, i + 1), d) == split(s.subrange(0, i), d).push(
            Seq::<u8>::empty(),
        ),
        s[i] != d ==> split(s.subrange(0, i + 1), d) == split(s.subrange(0, i), d).update(
            split(s.subrange(0, i), d).len() - 1,
            split(s.subrange(0, i), d).last().push(s[i]),
        ),
        split(s.subrange(0, i), d).len() >= 1,
{
    assert(s.subrange(0, i + 1).drop_last() =~= s.subrange(0, i));
    lemma_split_nonempty(s.subrange(0, i), d);
}

pub proof fn lemma_skip_leading_step(s: Seq<u8>, i: int, hi: int, c: u8)
    requires
        0 <= i < hi <= s.len(),
        s[i] == c,
    ensures
        skip_leading(s.subrange(i, hi), c) == skip_leading(s.subrange(i + 1, hi), c),
{
    assert(s.subrange(i, hi).drop_first() =~= s.subrange(i + 1, hi));
}

/// The start of `skip_leading(s[lo..hi], c)`.
pub fn skip_leading_from(s: &[u8], lo: usize, hi: usize, c: u8) -> (j: usize)
    requires
        lo <= hi <= s@.len(),
    ensures
        lo <= j <= hi,
        s@.subrange(j as int, hi as int) == skip_leading(s@.subrange(lo as int, hi as int), c),
{
    let mut j = lo;
    while j < hi && s[j] == c
        invariant
            lo <= j <= hi <= s@.len(),
            skip_leading(s@.subrange(j as int, hi as int), c) == skip_leading(
                s@.subrange(lo as int, hi as int),
                c,
            ),
        decreases hi - j,
    {
        proof {
            lemma_skip_leading_step(s@, j as int, hi as int, c);
        }
        j = j + 1;
    }
    j
}

/// The end of `skip_trailing(s[lo..hi], c)`.
pub fn skip_trailing_to(s: &[u8], lo: usize, hi: usize, c: u8) -> (j: usize)
    requires
        lo <= hi <= s@.len(),
    ensures
        lo <= j <= hi,
        s@.subrange(lo as int, j as int) == skip_trailing(s@.subrange(lo as int, hi as int), c),
{
    let mut j = hi;
    while j > lo && s[j - 1] == c
        invariant
            lo <= j <= hi <= s@.len(),
            skip_trailing(s@.subrange(lo as int, j as int), c) == skip_trailing(
                s@.subrange(lo as int, hi as int),
                c,
            ),
        decreases j - lo,
    {
        proof {
            assert(s@.subrange(lo as int, j as int).drop_last() =~= s@.subrange(
                lo as int,
                j - 1,
            ));
        }
        j = j - 1;
    }
    j
}

/// The length of `trim_end(s)`.
pub fn trim_end_len(s: &[u8]) -> (j: usize)
    ensures
        j <= s@.len(),
        s@.subrange(0, j as int) == trim_end(s@),
{
    let mut j = s.len();
    assert(s@.subrange(0, j as int) =~= s@);
    while j > 0 && (s[j - 1] == 9 || s[j - 1] == 10 || s[j - 1] == 11 || s[j - 1] == 12 || s[j
        - 1] == 13 || s[j - 1] == 32)
        invariant
            j <= s@.len(),
            trim_end(s@.subrange(0, j as int)) == trim_end(s@),
        decreases j,
    {
        proof {
            assert(s@.subrange(0, j as int).drop_last() =~= s@.subrange(0, j - 1));
        }
        j = j - 1;
    }
    j
}

/// Whether `s[lo..hi]` begins with `p`.
pub fn has_prefix_at(s: &[u8], lo: usize, hi: usize, p: &[u8]) -> (b: bool)
    requires
        lo <= hi <= s@.len(),
    ensures
        b == has_prefix(s@.subrange(lo as int, hi as int), p@),
{
    if p.len() > hi - lo {
        return false;
    }
    let mut k: usize = 0;
    while k < p.len()
        invariant
            p@.len() <= hi - lo,
            lo <= hi <= s@.len(),
            k <= p@.len(),
            forall|m: int| 0 <= m < k ==> s@[lo + m] == p@[m],
        decreases p@.len() - k,
    {
        if s[lo + k] != p[k] {
            proof {
                let t = s@.subrange(lo as int, hi as int);
                assert(t.subrange(0, p@.len() as int)[k as int] != p@[k as int]);
            }
            return false;
        }
        k = k + 1;
    }
    proof {
        let t = s@.subrange(lo as int, hi as int);
        assert(t.subrange(0, p@.len() as int) =~= p@);
    }
    true
}

} // verus!
