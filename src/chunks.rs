//! Parsing in pieces: the text is cut after line ends, each piece is parsed
//! on its own, and the records of the pieces, joined in order, are those of
//! the whole text.
use vstd::prelude::*;

use crate::bytes::{lemma_split_nonempty, split};
use crate::ingest::{lines_of, record_lines, records_from, strip_cr};
use crate::record::{record_of, Record};

verus! {

/// `t` is empty or ends a line.
pub open spec fn ends_line(t: Seq<u8>) -> bool {
    t.len() == 0 || t.last() == 10
}

/// `cuts` go from 0 to `n` without going back, and each one past the
/// first and before the last follows a line end of `t`.
pub open spec fn line_cuts(cuts: Seq<usize>, t: Seq<u8>) -> bool {
    &&& cuts.len() >= 2
    &&& cuts[0] == 0
    &&& cuts.last() == t.len()
    &&& forall|i: int| 0 <= i < cuts.len() - 1 ==> #[trigger] cuts[i] <= cuts[i + 1]
    &&& forall|i: int| 0 < i < cuts.len() - 1 ==> t[#[trigger] cuts[i] - 1] == 10
}

/// No line of `t` ends right before a position in `lo..hi`.
pub open spec fn no_line_end(t: Seq<u8>, lo: int, hi: int) -> bool {
    forall|j: int| 0 <= j && lo <= j + 1 < hi ==> #[trigger] t[j] != 10
}

/// Where to cut `t` into at most `n` pieces of whole lines: each cut is
/// the first line end at least `t.len() / n` bytes past the one before,
/// and there are fewer than `n` pieces only when the text runs out first.
pub fn line_cuts_of(t: &[u8], n: usize) -> (r: Vec<usize>)
    requires
        n >= 1,
    ensures
        line_cuts(r@, t@),
        r@.len() <= n + 1,
        forall|i: int|
            0 < i < r@.len() - 1 ==> {
                &&& r@[i - 1] + (t@.len() / (n as nat)) as int <= #[trigger] r@[i]
                &&& no_line_end(t@, r@[i - 1] + (t@.len() / (n as nat)) as int, r@[i] as int)
            },
        r@.len() < n + 1 ==> no_line_end(
            t@,
            r@[r@.len() - 2] + (t@.len() / (n as nat)) as int,
            t@.len() as int,
        ),
{
    let step = t.len() / n;
    assert(step <= t@.len()) by (nonlinear_arith)
        requires
            step == (t@.len() as int) / (n as int),
            n >= 1,
    ;
    let mut r: Vec<usize> = Vec::new();
    r.push(0);
    let mut k: usize = 1;
    let mut ran_out = false;
    while k < n && !ran_out
        invariant
            1 <= k <= n,
            step <= t@.len(),
            step == t@.len() / (n as nat),
            r@.len() == k,
            r@[0] == 0,
            forall|i: int| 0 <= i < r@.len() ==> #[trigger] r@[i] <= t@.len(),
            forall|i: int| 0 <= i < r@.len() - 1 ==> #[trigger] r@[i] <= r@[i + 1],
            forall|i: int| 0 < i < r@.len() ==> t@[#[trigger] r@[i] - 1] == 10,
            forall|i: int|
                0 < i < r@.len() ==> {
                    &&& r@[i - 1] + step <= #[trigger] r@[i]
                    &&& no_line_end(t@, r@[i - 1] + step, r@[i] as int)
                },
            r@[r@.len() - 1] < t@.len() || r@.len() == 1,
            ran_out ==> no_line_end(t@, r@[r@.len() - 1] + step, t@.len() as int),
        decreases n - k + if ran_out {
            0int
        } else {
            1int
        },
    {
        let last = r[k - 1];
        let start = if last <= t.len() - step {
            last + step
        } else {
            t.len()
        };
        let mut p = start;
        // move to just past the next line end
        while p < t.len() && (p == 0 || t[p - 1] != 10)
            invariant
                start <= p <= t@.len(),
                no_line_end(t@, start as int, p as int),
            decreases t@.len() - p,
        {
            p = p + 1;
        }
        if p == t.len() {
            ran_out = true;
        } else {
            r.push(p);
            k = k + 1;
        }
    }
    let ghost inner = r@;
    let end = r[r.len() - 1];
    if end < t.len() || r.len() == 1 {
        r.push(t.len());
    }
    proof {
        assert(r@.last() == t@.len());
        assert(r@.len() == inner.len() + 1);
        assert(r@[r@.len() - 2] == inner.last());
        if r@.len() < n + 1 {
            assert(k < n);
            assert(ran_out);
        }
        assert forall|i: int| 0 < i < r@.len() - 1 implies {
            &&& r@[i - 1] + step <= #[trigger] r@[i]
            &&& no_line_end(t@, r@[i - 1] + step, r@[i] as int)
        } by {
            assert(r@[i] == inner[i]);
            assert(r@[i - 1] == inner[i - 1]);
        }
    }
    r
}

pub proof fn lemma_split_after_line_end(a: Seq<u8>, b: Seq<u8>)
    requires
        ends_line(a),
    ensures
        split(a + b, 10) == split(a, 10).drop_last() + split(b, 10),
        split(a, 10).last() == Seq::<u8>::empty(),
    decreases b.len(),
{
    lemma_split_nonempty(a, 10);
    if a.len() > 0 {
        assert(split(a, 10) == split(a.drop_last(), 10).push(Seq::<u8>::empty()));
    } else {
        assert(split(a, 10) == seq![Seq::<u8>::empty()]);
    }
    if b.len() == 0 {
        assert(a + b =~= a);
        assert(split(a, 10) =~= split(a, 10).drop_last() + split(b, 10));
    } else {
        let b2 = b.drop_last();
        let c = b.last();
        lemma_split_after_line_end(a, b2);
        lemma_split_nonempty(b2, 10);
        assert((a + b).drop_last() =~= a + b2);
        assert((a + b).last() == c);
        let p = split(a, 10).drop_last();
        let s2 = split(b2, 10);
        if c == 10 {
            assert(split(a + b, 10) =~= (p + s2).push(Seq::<u8>::empty()));
            assert(split(a + b, 10) =~= p + split(b, 10));
        } else {
            assert(split(a + b, 10) =~= (p + s2).update(
                (p + s2).len() - 1,
                (p + s2).last().push(c),
            ));
            assert(split(b, 10) =~= s2.update(s2.len() - 1, s2.last().push(c)));
            assert(split(a + b, 10) =~= p + split(b, 10));
        }
    }
}

/// Cutting the text after a line end cuts its lines there.
pub proof fn lemma_lines_concat(a: Seq<u8>, b: Seq<u8>)
    requires
        ends_line(a),
    ensures
        lines_of(a + b) == lines_of(a) + lines_of(b),
{
    lemma_split_after_line_end(a, b);
    lemma_split_nonempty(b, 10);
    lemma_split_nonempty(a, 10);
    let p = split(a, 10).drop_last();
    let s = split(b, 10);
    let f = |l: Seq<u8>| strip_cr(l);
    assert((p + s).drop_last() =~= p + s.drop_last());
    assert((p + s.drop_last()).map_values(f) =~= p.map_values(f) + s.drop_last().map_values(f));
    assert(lines_of(a) =~= p.map_values(f));
    if s.last().len() == 0 {
        assert(lines_of(a + b) =~= lines_of(a) + lines_of(b));
    } else {
        assert(lines_of(a + b) =~= lines_of(a) + lines_of(b));
    }
}

/// Keeping the record lines of two runs of lines keeps those of both.
pub proof fn lemma_record_lines_concat(x: Seq<Seq<u8>>, y: Seq<Seq<u8>>, sep: u8)
    ensures
        record_lines(x + y, sep) == record_lines(x, sep) + record_lines(y, sep),
    decreases y.len(),
{
    if y.len() == 0 {
        assert(x + y =~= x);
        assert(record_lines(x, sep) + record_lines(y, sep) =~= record_lines(x, sep));
    } else {
        assert((x + y).drop_last() =~= x + y.drop_last());
        assert((x + y).last() == y.last());
        lemma_record_lines_concat(x, y.drop_last(), sep);
        let l = y.last();
        if !crate::ingest::is_comment(l) && crate::record::record_error(l, sep) is None {
            assert(record_lines(x + y, sep) =~= record_lines(x, sep) + record_lines(y, sep));
        } else {
            assert(record_lines(x + y, sep) =~= record_lines(x, sep) + record_lines(y, sep));
        }
    }
}

/// The records of a text cut after a line end are those of its first part,
/// then those of its second.
pub proof fn lemma_records_concat<'a>(
    a: Seq<u8>,
    b: Seq<u8>,
    ra: Seq<Record<'a>>,
    rb: Seq<Record<'a>>,
    sep: u8,
)
    requires
        ends_line(a),
        records_from(ra, a, sep),
        records_from(rb, b, sep),
    ensures
        records_from(ra + rb, a + b, sep),
{
    lemma_lines_concat(a, b);
    lemma_record_lines_concat(lines_of(a), lines_of(b), sep);
    let kept = record_lines(lines_of(a + b), sep);
    let ka = record_lines(lines_of(a), sep);
    let kb = record_lines(lines_of(b), sep);
    assert(kept == ka + kb);
    assert forall|k: int| 0 <= k < (ra + rb).len() implies record_of(
        #[trigger] (ra + rb)[k],
        kept[k],
        sep,
    ) by {
        if k < ra.len() {
            assert(record_of(ra[k], ka[k], sep));
        } else {
            assert(record_of(rb[k - ra.len()], kb[k - ra.len()], sep));
        }
    }
}

/// Parsing the pieces between line cuts, each on its own, and joining their
/// records in order gives the records of the whole text.
pub proof fn lemma_pieces_records<'a>(
    t: Seq<u8>,
    cuts: Seq<usize>,
    parts: Seq<Seq<Record<'a>>>,
    sep: u8,
)
    requires
        line_cuts(cuts, t),
        parts.len() == cuts.len() - 1,
        forall|i: int|
            0 <= i < parts.len() ==> records_from(
                #[trigger] parts[i],
                t.subrange(cuts[i] as int, cuts[i + 1] as int),
                sep,
            ),
    ensures
        records_from(parts.flatten(), t, sep),
{
    let n = parts.len() as int;
    lemma_pieces_prefix(t, cuts, parts, sep, n);
    assert(parts.take(n) =~= parts);
    assert(t.subrange(0, cuts[n] as int) =~= t);
}

proof fn lemma_pieces_prefix<'a>(
    t: Seq<u8>,
    cuts: Seq<usize>,
    parts: Seq<Seq<Record<'a>>>,
    sep: u8,
    k: int,
)
    requires
        line_cuts(cuts, t),
        parts.len() == cuts.len() - 1,
        0 <= k <= parts.len(),
        forall|i: int|
            0 <= i < parts.len() ==> records_from(
                #[trigger] parts[i],
                t.subrange(cuts[i] as int, cuts[i + 1] as int),
                sep,
            ),
    ensures
        cuts[k] <= t.len(),
        records_from(parts.take(k).flatten(), t.subrange(0, cuts[k] as int), sep),
    decreases k,
{
    if k == 0 {
        assert(t.subrange(0, 0) =~= Seq::<u8>::empty());
        lemma_split_nonempty(Seq::<u8>::empty(), 10);
        assert(lines_of(Seq::<u8>::empty()) =~= Seq::<Seq<u8>>::empty());
        assert(parts.take(0) =~= Seq::<Seq<Record<'a>>>::empty());
        assert(parts.take(0).flatten() =~= Seq::<Record<'a>>::empty());
    } else {
        let j = k - 1;
        lemma_pieces_prefix(t, cuts, parts, sep, j);
        lemma_cut_bounds(cuts, t, j);
        let a = t.subrange(0, cuts[j] as int);
        let b = t.subrange(cuts[j] as int, cuts[k] as int);
        assert(ends_line(a)) by {
            if j > 0 {
                assert(t[cuts[j] - 1] == 10);
            }
        }
        lemma_records_concat(a, b, parts.take(j).flatten(), parts[j], sep);
        assert(a + b =~= t.subrange(0, cuts[k] as int));
        assert(parts.take(k) =~= parts.take(j).push(parts[j]));
        parts.take(j).lemma_flatten_push(parts[j]);
    }
}

proof fn lemma_cut_bounds(cuts: Seq<usize>, t: Seq<u8>, k: int)
    requires
        line_cuts(cuts, t),
        0 <= k < cuts.len() - 1,
    ensures
        cuts[k] <= cuts[k + 1] <= t.len(),
    decreases cuts.len() - k,
{
    if k + 1 < cuts.len() - 1 {
        lemma_cut_bounds(cuts, t, k + 1);
    }
    assert(cuts[k] <= cuts[k + 1]);
}

/// The records of the pieces, one after another.
pub fn join_records<'a>(parts: Vec<Vec<Record<'a>>>) -> (r: Vec<Record<'a>>)
    ensures
        r@ == parts@.map_values(|p: Vec<Record<'a>>| p@).flatten(),
{
    let ghost ps = parts@.map_values(|p: Vec<Record<'a>>| p@);
    let mut r: Vec<Record<'a>> = Vec::new();
    let mut i: usize = 0;
    while i < parts.len()
        invariant
            i <= parts@.len(),
            ps == parts@.map_values(|p: Vec<Record<'a>>| p@),
            r@ == ps.take(i as int).flatten(),
        decreases parts@.len() - i,
    {
        let part = &parts[i];
        let ghost before = r@;
        let mut j: usize = 0;
        while j < part.len()
            invariant
                j <= part@.len(),
                r@ == before + part@.take(j as int),
            decreases part@.len() - j,
        {
            r.push(part[j]);
            proof {
                assert(r@ =~= before + part@.take(j + 1));
            }
            j = j + 1;
        }
        proof {
            assert(part@.take(part@.len() as int) =~= part@);
            assert(ps.take(i + 1) =~= ps.take(i as int).push(part@));
            ps.take(i as int).lemma_flatten_push(part@);
        }
        i = i + 1;
    }
    proof {
        assert(ps.take(parts@.len() as int) =~= ps);
    }
    r
}

} // verus!
