//! From text to records: lines as `str::lines` gives them, comments
//! dropped, lines that do not parse dropped, records grouped by chromosome.
use vstd::prelude::*;
use vstd::string::StringSliceAdditionalSpecFns;

use crate::bytes::{split, split_ranges};
use crate::index::{key_slots, KeyIndex};
use crate::record::{parse_record, record_error, record_of, Record};

verus! {

/// `l` without the carriage return that may end it.
pub open spec fn strip_cr(l: Seq<u8>) -> Seq<u8> {
    if l.len() > 0 && l.last() == 13 {
        l.drop_last()
    } else {
        l
    }
}

/// The lines of `t` as `str::lines` gives them: split at `\n`, a `\r`
/// before the `\n` dropped, no empty line after a final `\n`.
pub open spec fn lines_of(t: Seq<u8>) -> Seq<Seq<u8>> {
    let p = split(t, 10);
    let ended = p.drop_last().map_values(|l: Seq<u8>| strip_cr(l));
    if p.last().len() == 0 {
        ended
    } else {
        ended.push(p.last())
    }
}

pub open spec fn is_comment(l: Seq<u8>) -> bool {
    l.len() > 0 && l[0] == 35
}

/// The lines of `ls` that are records: not comments, and parsed.
pub open spec fn record_lines(ls: Seq<Seq<u8>>, sep: u8) -> Seq<Seq<u8>>
    decreases ls.len(),
{
    if ls.len() == 0 {
        Seq::empty()
    } else {
        let l = ls.last();
        if !is_comment(l) && record_error(l, sep) is None {
            record_lines(ls.drop_last(), sep).push(l)
        } else {
            record_lines(ls.drop_last(), sep)
        }
    }
}

/// `rs` are the records that the lines of `text` give, in order.
pub open spec fn records_from<'a>(rs: Seq<Record<'a>>, text: Seq<u8>, sep: u8) -> bool {
    let kept = record_lines(lines_of(text), sep);
    &&& rs.len() == kept.len()
    &&& forall|k: int| 0 <= k < rs.len() ==> record_of(#[trigger] rs[k], kept[k], sep)
}

/// The ranges of the lines of `t`.
pub fn line_ranges(t: &[u8]) -> (r: Vec<(usize, usize)>)
    ensures
        r@.len() == lines_of(t@).len(),
        forall|k: int|
            0 <= k < r@.len() ==> {
                &&& #[trigger] r@[k].0 <= r@[k].1 <= t@.len()
                &&& t@.subrange(r@[k].0 as int, r@[k].1 as int) == lines_of(t@)[k]
            },
{
    let pieces = split_ranges(t, 10);
    let ghost p = split(t@, 10);
    let ghost lv = lines_of(t@);
    let n = pieces.len();
    proof {
        crate::bytes::lemma_split_nonempty(t@, 10);
    }
    let mut r: Vec<(usize, usize)> = Vec::new();
    let mut i: usize = 0;
    while i + 1 < n
        invariant
            pieces@.len() == n == p.len() >= 1,
            lv == lines_of(t@),
            p == split(t@, 10),
            i <= n - 1,
            r@.len() == i,
            forall|k: int|
                0 <= k < pieces@.len() ==> {
                    &&& #[trigger] pieces@[k].0 <= pieces@[k].1 <= t@.len()
                    &&& t@.subrange(pieces@[k].0 as int, pieces@[k].1 as int) == p[k]
                },
            forall|k: int|
                0 <= k < r@.len() ==> {
                    &&& #[trigger] r@[k].0 <= r@[k].1 <= t@.len()
                    &&& t@.subrange(r@[k].0 as int, r@[k].1 as int) == strip_cr(p[k])
                },
        decreases n - i,
    {
        let (lo, hi) = pieces[i];
        let end = if hi > lo && t[hi - 1] == 13 {
            hi - 1
        } else {
            hi
        };
        proof {
            if end < hi {
                assert(t@.subrange(lo as int, end as int) =~= p[i as int].drop_last());
            }
        }
        r.push((lo, end));
        i = i + 1;
    }
    let (lo, hi) = pieces[n - 1];
    let ghost rb = r@;
    if hi > lo {
        r.push((lo, hi));
    }
    proof {
        assert forall|k: int| 0 <= k < r@.len() implies {
            &&& #[trigger] r@[k].0 <= r@[k].1 <= t@.len()
            &&& t@.subrange(r@[k].0 as int, r@[k].1 as int) == lv[k]
        } by {
            if k < n - 1 {
                assert(r@[k] == rb[k]);
                assert(rb[k].0 <= rb[k].1 <= t@.len());
                assert(t@.subrange(rb[k].0 as int, rb[k].1 as int) == strip_cr(p[k]));
                assert(p.drop_last()[k] == p[k]);
                assert(lv[k] == strip_cr(p[k]));
            } else {
                assert(r@[k] == pieces@[n - 1]);
                assert(pieces@[n - 1].0 <= pieces@[n - 1].1 <= t@.len());
                assert(lv[k] == p.last());
                assert(t@.subrange(r@[k].0 as int, r@[k].1 as int) == p[n - 1]);
            }
        }
    }
    r
}

/// The records of `text`, in order; comments and lines that do not parse
/// are left out.
pub fn parse_records<'a>(text: &'a str, sep: u8) -> (r: Vec<Record<'a>>)
    ensures
        records_from(r@, text.spec_bytes(), sep),
{
    let t = text.as_bytes();
    let lines = line_ranges(t);
    let ghost lv = lines_of(t@);
    let mut r: Vec<Record<'a>> = Vec::new();
    let mut i: usize = 0;
    while i < lines.len()
        invariant
            lv == lines_of(t@),
            t@ == text.spec_bytes(),
            lines@.len() == lv.len(),
            i <= lines@.len(),
            forall|k: int|
                0 <= k < lines@.len() ==> {
                    &&& #[trigger] lines@[k].0 <= lines@[k].1 <= t@.len()
                    &&& t@.subrange(lines@[k].0 as int, lines@[k].1 as int) == lv[k]
                },
            r@.len() == record_lines(lv.take(i as int), sep).len(),
            forall|k: int|
                0 <= k < r@.len() ==> record_of(
                    #[trigger] r@[k],
                    record_lines(lv.take(i as int), sep)[k],
                    sep,
                ),
        decreases lines@.len() - i,
    {
        let (lo, hi) = lines[i];
        let line = &t[lo..hi];
        proof {
            assert(lv.take(i + 1).drop_last() =~= lv.take(i as int));
            assert(lv.take(i + 1).last() == line@);
        }
        let comment = line.len() > 0 && line[0] == 35;
        if !comment {
            match parse_record(line, sep) {
                Ok(rec) => {
                    r.push(rec);
                },
                Err(_) => {},
            }
        }
        i = i + 1;
    }
    proof {
        assert(lv.take(lines@.len() as int) =~= lv);
    }
    r
}

/// The records of `rs` on chromosome `c`, in order.
pub open spec fn of_chrom<'a>(rs: Seq<Record<'a>>, c: Seq<u8>) -> Seq<Record<'a>>
    decreases rs.len(),
{
    if rs.len() == 0 {
        Seq::empty()
    } else if rs.last().chrom@ == c {
        of_chrom(rs.drop_last(), c).push(rs.last())
    } else {
        of_chrom(rs.drop_last(), c)
    }
}

/// Records split by chromosome, chromosomes in order of first appearance.
pub struct Groups<'a> {
    pub names: Vec<&'a [u8]>,
    pub records: Vec<Vec<Record<'a>>>,
    pub slots: KeyIndex,
}

impl<'a> Groups<'a> {
    /// `self` holds `rs` split by chromosome.
    pub open spec fn groups_of(&self, rs: Seq<Record<'a>>) -> bool {
        &&& self.names@.len() == self.records@.len()
        &&& crate::layers::slots_match(key_slots(self.slots), self.names@)
        &&& forall|g: int|
            0 <= g < self.names@.len() ==> #[trigger] self.records@[g]@ == of_chrom(
                rs,
                self.names@[g]@,
            ) && self.records@[g]@.len() > 0
        &&& forall|c: Seq<u8>|
            #![trigger key_slots(self.slots).contains_key(c)]
            !key_slots(self.slots).contains_key(c) ==> of_chrom(rs, c).len() == 0
    }
}

/// Splits `records` by chromosome, keeping their order within each.
pub fn group_by_chrom<'a>(records: &Vec<Record<'a>>) -> (r: Groups<'a>)
    ensures
        r.groups_of(records@),
{
    let mut r = Groups { names: Vec::new(), records: Vec::new(), slots: KeyIndex::new() };
    let mut i: usize = 0;
    while i < records.len()
        invariant
            i <= records@.len(),
            r.groups_of(records@.take(i as int)),
        decreases records@.len() - i,
    {
        let rec = records[i];
        let ghost pre = records@.take(i as int);
        let ghost next = records@.take(i + 1);
        proof {
            assert(next.drop_last() =~= pre);
            assert(next.last() == rec);
        }
        let ghost before = r;
        match r.slots.get(rec.chrom) {
            Some(g) => {
                let ghost old_list = r.records@[g as int];
                r.records[g].push(rec);
                proof {
                    assert forall|h: int| 0 <= h < r.names@.len() implies #[trigger] r.records@[h]@
                        == of_chrom(next, r.names@[h]@) by {
                        if h != g {
                            assert(r.records@[h] == before.records@[h]);
                            assert(before.names@[h]@ != rec.chrom@);
                        }
                    }
                    assert forall|c: Seq<u8>| !key_slots(r.slots).contains_key(c) implies of_chrom(
                        next,
                        c,
                    ).len() == 0 by {
                        assert(c != rec.chrom@);
                    }
                }
            },
            None => {
                let g = r.names.len();
                r.slots.insert(vstd::slice::slice_to_vec(rec.chrom), g);
                r.names.push(rec.chrom);
                let mut first: Vec<Record<'a>> = Vec::new();
                first.push(rec);
                r.records.push(first);
                proof {
                    let sl = key_slots(r.slots);
                    assert(of_chrom(pre, rec.chrom@).len() == 0);
                    assert(of_chrom(pre, rec.chrom@) =~= Seq::<Record<'a>>::empty());
                    assert forall|h: int| 0 <= h < r.names@.len() implies sl.contains_key(
                        #[trigger] r.names@[h]@,
                    ) && sl[r.names@[h]@] == h by {
                        if h < g {
                            assert(r.names@[h] == before.names@[h]);
                        }
                    }
                    assert forall|h: int| 0 <= h < r.names@.len() implies #[trigger] r.records@[h]@
                        == of_chrom(next, r.names@[h]@) by {
                        if h < g {
                            assert(r.records@[h] == before.records@[h]);
                            assert(before.names@[h]@ != rec.chrom@);
                        } else {
                            assert(r.records@[h]@ =~= seq![rec]);
                        }
                    }
                    assert forall|c: Seq<u8>| !sl.contains_key(c) implies of_chrom(next, c).len()
                        == 0 by {
                        assert(c != rec.chrom@);
                        assert(!key_slots(before.slots).contains_key(c));
                    }
                }
            },
        }
        i = i + 1;
    }
    proof {
        assert(records@.take(records@.len() as int) =~= records@);
    }
    r
}

} // verus!
