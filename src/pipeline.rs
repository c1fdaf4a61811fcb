//! The whole sort: records grouped by chromosome, one index per chromosome,
//! chromosomes in natural order, then each chromosome's lines.
use vstd::prelude::*;
use vstd::string::StringSliceAdditionalSpecFns;

use crate::features::views;
use crate::index::key_slots;
use crate::ingest::{group_by_chrom, of_chrom, parse_records, records_from};
use crate::layers::{build_model, starts_ascending, Layers, LayersModel};
use crate::layout::{
    error_of_gap, fill_lines, layout, lines_size, push_lines, size_of, text_of, Gap, LayoutError,
};
use crate::ord::{naturally_sorted, sort_natural};
use crate::record::Record;

verus! {

/// `l` is the index that records `rs` build: their genes (ordered by start),
/// transcripts, headers and features.
pub open spec fn built_from<'a>(l: LayersModel, rs: Seq<Record<'a>>) -> bool {
    &&& l.mapper == build_model(rs).mapper
    &&& l.helper == build_model(rs).helper
    &&& l.inner == build_model(rs).inner
    &&& l.genes.to_multiset() == build_model(rs).genes.to_multiset()
    &&& starts_ascending(l.genes)
}

/// The per-chromosome indexes of all records, chromosomes in natural order.
pub struct SortedIndex<'a> {
    pub chroms: Vec<&'a [u8]>,
    pub layers: Vec<Layers<'a>>,
}

/// The model of a sorted index: each chromosome name with its index.
pub open spec fn index_of<'a>(
    chroms: Seq<&'a [u8]>,
    ms: Seq<LayersModel>,
    rs: Seq<Record<'a>>,
) -> bool {
    &&& chroms.len() == ms.len()
    &&& naturally_sorted(chroms)
    &&& forall|i: int, j: int| 0 <= i < j < chroms.len() ==> chroms[i]@ != chroms[j]@
    &&& forall|c: Seq<u8>|
        of_chrom(rs, c).len() > 0 <==> exists|i: int| 0 <= i < chroms.len() && chroms[i]@ == c
    &&& forall|i: int| 0 <= i < chroms.len() ==> built_from(#[trigger] ms[i], of_chrom(rs, chroms[i]@))
}

/// The lines of the chromosomes in `ms`, in order; the first gap stops it.
pub open spec fn index_lines(ms: Seq<LayersModel>) -> Result<Seq<Seq<u8>>, Gap>
    decreases ms.len(),
{
    if ms.len() == 0 {
        Ok(Seq::empty())
    } else {
        match index_lines(ms.drop_last()) {
            Err(g) => Err(g),
            Ok(b) => match layout(ms.last()) {
                Err(g) => Err(g),
                Ok(ls) => Ok(b + ls),
            },
        }
    }
}

/// What writing chromosomes `ms` gives: their bytes, or why not.
pub open spec fn written(r: Result<Vec<u8>, LayoutError>, ms: Seq<LayersModel>) -> bool {
    match index_lines(ms) {
        Err(g) => r is Err && error_of_gap(r->Err_0, g),
        Ok(ls) => if size_of(ls) <= usize::MAX {
            r is Ok && r->Ok_0@ == text_of(ls)
        } else {
            r == Err::<Vec<u8>, LayoutError>(LayoutError::TooLarge)
        },
    }
}

impl<'a> SortedIndex<'a> {
    pub open spec fn models(&self) -> Seq<LayersModel> {
        self.layers@.map_values(|l: Layers<'a>| l@)
    }

    pub open spec fn wf(&self) -> bool {
        forall|i: int| 0 <= i < self.layers@.len() ==> (#[trigger] self.layers@[i]).wf()
    }

    /// Indexes `records`: one index per chromosome, chromosomes in natural
    /// order of their names.
    pub fn build(records: &Vec<Record<'a>>) -> (r: Self)
        ensures
            r.wf(),
            index_of(r.chroms@, r.models(), records@),
    {
        let groups = group_by_chrom(records);
        let mut chroms: Vec<&'a [u8]> = Vec::new();
        let mut k: usize = 0;
        while k < groups.names.len()
            invariant
                k <= groups.names@.len(),
                chroms@ == groups.names@.take(k as int),
            decreases groups.names@.len() - k,
        {
            chroms.push(groups.names[k]);
            proof {
                assert(chroms@ =~= groups.names@.take(k + 1));
            }
            k = k + 1;
        }
        proof {
            assert(chroms@ =~= groups.names@);
        }
        sort_natural(&mut chroms);
        let ghost names = groups.names@;
        let ghost slots = key_slots(groups.slots);
        proof {
            lemma_sorted_names(names, chroms@, slots);
        }
        let ghost sorted = chroms@;
        let mut layers: Vec<Layers<'a>> = Vec::new();
        let mut i: usize = 0;
        while i < chroms.len()
            invariant
                i <= chroms@.len(),
                groups.groups_of(records@),
                names == groups.names@,
                slots == key_slots(groups.slots),
                sorted == chroms@,
                naturally_sorted(chroms@),
                forall|a: int, b: int| 0 <= a < b < sorted.len() ==> sorted[a]@ != sorted[b]@,
                forall|c: Seq<u8>|
                    slots.contains_key(c) ==> exists|j: int| 0 <= j < sorted.len() && sorted[j]@ == c,
                layers@.len() == i,
                forall|c: int| 0 <= c < chroms@.len() ==> slots.contains_key(#[trigger] chroms@[c]@),
                forall|j: int| 0 <= j < i ==> (#[trigger] layers@[j]).wf(),
                forall|j: int|
                    0 <= j < i ==> built_from(#[trigger] layers@[j]@, of_chrom(records@, chroms@[j]@)),
            decreases chroms@.len() - i,
        {
            let g = groups.slots.get(chroms[i]).unwrap();
            proof {
                assert(groups.records@[g as int]@ == of_chrom(records@, names[g as int]@));
            }
            let l = Layers::build(&groups.records[g]);
            proof {
                assert(names[g as int]@ == chroms@[i as int]@);
            }
            layers.push(l);
            i = i + 1;
        }
        let r = SortedIndex { chroms, layers };
        proof {
            assert forall|j: int| 0 <= j < r.chroms@.len() implies built_from(
                #[trigger] r.models()[j],
                of_chrom(records@, r.chroms@[j]@),
            ) by {
                assert(r.models()[j] == r.layers@[j]@);
            }
            assert forall|c: Seq<u8>| of_chrom(records@, c).len() > 0 implies exists|j: int|
                0 <= j < r.chroms@.len() && r.chroms@[j]@ == c by {
                assert(slots.contains_key(c));
                let j = choose|j: int| 0 <= j < sorted.len() && sorted[j]@ == c;
                assert(r.chroms@[j]@ == c);
            }
            assert forall|j: int| 0 <= j < r.chroms@.len() implies of_chrom(
                records@,
                #[trigger] r.chroms@[j]@,
            ).len() > 0 by {
                let c = r.chroms@[j]@;
                assert(slots.contains_key(c));
                let g = slots[c] as int;
                assert(names[g]@ == c);
                assert(groups.records@[g]@ == of_chrom(records@, names[g]@));
            }
        }
        r
    }

    /// All lines of the index, chromosome by chromosome.
    #[verifier::spinoff_prover]
    #[verifier::rlimit(40)]
    fn all_lines(&self) -> (r: Result<Vec<&'a [u8]>, LayoutError>)
        requires
            self.wf(),
        ensures
            match index_lines(self.models()) {
                Err(g) => r is Err && error_of_gap(r->Err_0, g),
                Ok(ls) => r is Ok && views(r->Ok_0@) == ls,
            },
    {
        let ghost ms = self.models();
        let mut out: Vec<&'a [u8]> = Vec::new();
        let mut i: usize = 0;
        while i < self.layers.len()
            invariant
                self.wf(),
                ms == self.models(),
                i <= self.layers@.len(),
                index_lines(ms.take(i as int)) is Ok,
                views(out@) == index_lines(ms.take(i as int))->Ok_0,
            decreases self.layers@.len() - i,
        {
            proof {
                assert(ms.take(i + 1).drop_last() =~= ms.take(i as int));
                assert(ms.take(i + 1).last() == self.layers@[i as int]@);
            }
            let ls = match self.layers[i].layout_lines() {
                Ok(ls) => ls,
                Err(e) => {
                    proof {
                        lemma_index_prefix_err(ms, i + 1);
                    }
                    return Err(e);
                },
            };
            push_lines(&mut out, &ls);
            i = i + 1;
        }
        proof {
            assert(ms.take(self.layers@.len() as int) =~= ms);
        }
        Ok(out)
    }

    /// The sorted output: for each chromosome in order, its lines.
    pub fn write(&self) -> (r: Result<Vec<u8>, LayoutError>)
        requires
            self.wf(),
        ensures
            written(r, self.models()),
    {
        let lines = self.all_lines()?;
        let n = match lines_size(&lines) {
            Some(n) => n,
            None => {
                return Err(LayoutError::TooLarge);
            },
        };
        let mut out: Vec<u8> = vec![0u8; n];
        fill_lines(&lines, out.as_mut_slice());
        Ok(out)
    }
}

proof fn lemma_index_prefix_err(ms: Seq<LayersModel>, i: int)
    requires
        0 <= i <= ms.len(),
        index_lines(ms.take(i)) is Err,
    ensures
        index_lines(ms) == index_lines(ms.take(i)),
    decreases ms.len(),
{
    if i < ms.len() {
        assert(ms.drop_last().take(i) =~= ms.take(i));
        lemma_index_prefix_err(ms.drop_last(), i);
    } else {
        assert(ms.take(i) =~= ms);
    }
}

/// Sorting distinct names keeps them distinct, and keeps each of them.
proof fn lemma_sorted_names<'a>(
    names: Seq<&'a [u8]>,
    sorted: Seq<&'a [u8]>,
    slots: Map<Seq<u8>, usize>,
)
    requires
        crate::layers::slots_match(slots, names),
        sorted.to_multiset() == names.to_multiset(),
    ensures
        forall|i: int, j: int| 0 <= i < j < sorted.len() ==> sorted[i]@ != sorted[j]@,
        forall|c: int| 0 <= c < sorted.len() ==> slots.contains_key(#[trigger] sorted[c]@),
        forall|c: Seq<u8>| slots.contains_key(c) ==> exists|j: int| 0 <= j < sorted.len() && sorted[j]@ == c,
{
    broadcast use vstd::seq_lib::group_to_multiset_ensures;

    assert forall|c: int| 0 <= c < sorted.len() implies slots.contains_key(
        #[trigger] sorted[c]@,
    ) by {
        assert(names.to_multiset().contains(sorted[c]));
        let k = choose|k: int| 0 <= k < names.len() && names[k] == sorted[c];
        assert(slots.contains_key(names[k]@));
    }
    assert forall|c: Seq<u8>| slots.contains_key(c) implies exists|j: int|
        0 <= j < sorted.len() && sorted[j]@ == c by {
        let k = slots[c] as int;
        assert(names[k]@ == c);
        assert(sorted.to_multiset().contains(names[k]));
    }
    assert(names.no_duplicates()) by {
        assert forall|i: int, j: int| 0 <= i < names.len() && 0 <= j < names.len() && i != j implies names[i] != names[j] by {
            assert(slots[names[i]@] == i);
            assert(slots[names[j]@] == j);
        }
    }
    names.lemma_multiset_has_no_duplicates();
    sorted.lemma_multiset_has_no_duplicates_conv();
    assert forall|i: int, j: int| 0 <= i < j < sorted.len() implies sorted[i]@ != sorted[j]@ by {
        assert(sorted[i] != sorted[j]);
        assert(names.to_multiset().contains(sorted[i]));
        assert(names.to_multiset().contains(sorted[j]));
        let a = choose|a: int| 0 <= a < names.len() && names[a] == sorted[i];
        let b = choose|b: int| 0 <= b < names.len() && names[b] == sorted[j];
        assert(a != b);
        if sorted[i]@ == sorted[j]@ {
            assert(slots[names[a]@] == a);
            assert(slots[names[b]@] == b);
        }
    }
}

/// Sorts an annotation text whose attribute pairs use `sep` between key and
/// value: chromosomes in natural order; in each, genes by start, each gene
/// followed by its transcripts, each transcript by its features in key
/// order. Comment lines and lines that do not parse are left out.
pub fn sort_annotations_text(input: &str, sep: u8) -> (r: Result<Vec<u8>, LayoutError>)
    ensures
        exists|rs: Seq<Record>, chroms: Seq<&[u8]>, ms: Seq<LayersModel>|
            {
                &&& records_from(rs, input.spec_bytes(), sep)
                &&& index_of(chroms, ms, rs)
                &&& written(r, ms)
            },
{
    let records = parse_records(input, sep);
    let index = SortedIndex::build(&records);
    let r = index.write();
    proof {
        assert(records_from(records@, input.spec_bytes(), sep));
        assert(index_of(index.chroms@, index.models(), records@));
    }
    r
}

} // verus!
