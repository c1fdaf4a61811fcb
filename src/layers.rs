//! The index of one chromosome: its genes, each gene's transcripts, each
//! transcript's header line and features.
use vstd::prelude::*;
use rayon::slice::ParallelSliceMut;
use vstd::string::StringSliceAdditionalSpecFns;

use crate::features::{
    add_feature, feature_view, keys_ascending, place_feature, put_feature, views, FeatureList,
};
use crate::index::{key_slots, KeyIndex};
use crate::ord::CowNaturalSort;
use crate::record::{bytes_eq, kind_suffix, Record};

verus! {

/// What a `Layers` holds.
pub struct LayersModel {
    /// Genes as (start, gene id, line).
    pub genes: Seq<(u32, Seq<u8>, Seq<u8>)>,
    /// Gene id to its transcript ids, in arrival order.
    pub mapper: Map<Seq<u8>, Seq<Seq<u8>>>,
    /// Transcript id to its header line.
    pub helper: Map<Seq<u8>, Seq<u8>>,
    /// Transcript id to its features.
    pub inner: Map<Seq<u8>, FeatureList>,
}

pub open spec fn empty_model() -> LayersModel {
    LayersModel {
        genes: Seq::empty(),
        mapper: Map::empty(),
        helper: Map::empty(),
        inner: Map::empty(),
    }
}

pub open spec fn transcripts_of(m: LayersModel, g: Seq<u8>) -> Seq<Seq<u8>> {
    if m.mapper.contains_key(g) {
        m.mapper[g]
    } else {
        Seq::empty()
    }
}

pub open spec fn features_of(m: LayersModel, t: Seq<u8>) -> FeatureList {
    if m.inner.contains_key(t) {
        m.inner[t]
    } else {
        Seq::empty()
    }
}

/// The key of an exon, CDS or codon: its exon number and kind suffix.
pub open spec fn exon_key<'a>(r: Record<'a>) -> Seq<u8> {
    r.exon_number@.push(kind_suffix(r.feat@))
}

/// `m` after it takes in record `r`.
pub open spec fn route<'a>(m: LayersModel, r: Record<'a>) -> LayersModel {
    let t = r.transcript_id@;
    if r.feat@ == "gene".spec_bytes() {
        LayersModel { genes: m.genes.push((r.start, r.gene_id@, r.line@)), ..m }
    } else if r.feat@ == "transcript".spec_bytes() {
        LayersModel {
            mapper: m.mapper.insert(r.gene_id@, transcripts_of(m, r.gene_id@).push(t)),
            helper: if m.helper.contains_key(t) {
                m.helper
            } else {
                m.helper.insert(t, r.line@)
            },
            ..m
        }
    } else if kind_suffix(r.feat@) != 101 {
        LayersModel {
            inner: m.inner.insert(t, put_feature(features_of(m, t), exon_key(r), r.line@)),
            ..m
        }
    } else {
        LayersModel {
            inner: m.inner.insert(t, add_feature(features_of(m, t), r.feat@, r.line@)),
            ..m
        }
    }
}

/// The index that a chromosome's records give, taken in order.
pub open spec fn build_model<'a>(rs: Seq<Record<'a>>) -> LayersModel
    decreases rs.len(),
{
    if rs.len() == 0 {
        empty_model()
    } else {
        route(build_model(rs.drop_last()), rs.last())
    }
}

pub open spec fn is_gene<'a>(r: Record<'a>) -> bool {
    r.feat@ == "gene".spec_bytes()
}

/// The gene records of `rs`, as (start, gene id, line), in order.
pub open spec fn gene_entries<'a>(rs: Seq<Record<'a>>) -> Seq<(u32, Seq<u8>, Seq<u8>)>
    decreases rs.len(),
{
    if rs.len() == 0 {
        Seq::empty()
    } else if is_gene(rs.last()) {
        gene_entries(rs.drop_last()).push((rs.last().start, rs.last().gene_id@, rs.last().line@))
    } else {
        gene_entries(rs.drop_last())
    }
}

/// Every gene record enters its chromosome's index, once, and no other
/// record does.
pub proof fn lemma_genes_complete<'a>(rs: Seq<Record<'a>>)
    ensures
        build_model(rs).genes == gene_entries(rs),
    decreases rs.len(),
{
    if rs.len() > 0 {
        lemma_genes_complete(rs.drop_last());
    }
}

/// Genes stand in order of start.
pub open spec fn starts_ascending(g: Seq<(u32, Seq<u8>, Seq<u8>)>) -> bool {
    forall|i: int, j: int| 0 <= i < j < g.len() ==> g[i].0 <= g[j].0
}

/// Relies on rayon's `par_sort_unstable_by_key`, keyed by the start: it
/// reorders the entries so that starts ascend.
#[verifier::external_body]
fn sort_by_start<'a>(v: &mut Vec<(u32, &'a [u8], &'a [u8])>)
    ensures
        final(v)@.to_multiset() == old(v)@.to_multiset(),
        forall|i: int, j: int| 0 <= i < j < final(v)@.len() ==> final(v)@[i].0 <= final(v)@[j].0,
{
    v.par_sort_unstable_by_key(|x| x.0);
}

/// Mapping two sequences that hold the same items gives two that do.
pub proof fn lemma_map_multiset<A, B>(a: Seq<A>, b: Seq<A>, f: spec_fn(A) -> B)
    requires
        a.to_multiset() == b.to_multiset(),
    ensures
        a.map_values(f).to_multiset() == b.map_values(f).to_multiset(),
    decreases a.len(),
{
    broadcast use vstd::seq_lib::group_to_multiset_ensures;

    if a.len() == 0 {
        assert(b.to_multiset().len() == 0);
        assert(b.len() == 0);
        assert(a.map_values(f) =~= b.map_values(f));
    } else {
        let x = a.last();
        let a2 = a.drop_last();
        assert(a =~= a2.push(x));
        assert(a.to_multiset() == a2.to_multiset().insert(x));
        assert(b.to_multiset().contains(x));
        let j = choose|j: int| 0 <= j < b.len() && b[j] == x;
        let b2 = b.remove(j);
        assert(b2.to_multiset() == b.to_multiset().remove(x));
        assert(a2.to_multiset() =~= b2.to_multiset());
        lemma_map_multiset(a2, b2, f);
        assert(a.map_values(f) =~= a2.map_values(f).push(f(x)));
        assert(b2.map_values(f) =~= b.map_values(f).remove(j));
        assert(b.map_values(f).to_multiset() == b2.map_values(f).to_multiset().insert(f(x))) by {
            assert(b.map_values(f)[j] == f(x));
            assert(b.map_values(f).remove(j).to_multiset() == b.map_values(f).to_multiset().remove(f(x)));
        }
    }
}

/// `ids[i]` holds slot `i`, and no other key holds one.
pub open spec fn slots_match<'a>(slots: Map<Seq<u8>, usize>, ids: Seq<&'a [u8]>) -> bool {
    &&& forall|k: Seq<u8>|
        #[trigger] slots.contains_key(k) ==> slots[k] < ids.len() && ids[slots[k] as int]@ == k
    &&& forall|i: int|
        0 <= i < ids.len() ==> slots.contains_key(#[trigger] ids[i]@) && slots[ids[i]@] == i
}

pub open spec fn gene_view<'a>(e: (u32, &'a [u8], &'a [u8])) -> (u32, Seq<u8>, Seq<u8>) {
    (e.0, e.1@, e.2@)
}

/// The index of one chromosome. Genes, and transcripts, each have a slot;
/// a hash index finds the slot of an id.
pub struct Layers<'a> {
    /// Genes as (start, gene id, line).
    pub layer: Vec<(u32, &'a [u8], &'a [u8])>,
    pub gene_slots: KeyIndex,
    pub gene_ids: Vec<&'a [u8]>,
    /// Per gene slot: its transcript ids.
    pub mapper: Vec<Vec<&'a [u8]>>,
    pub transcript_slots: KeyIndex,
    pub transcript_ids: Vec<&'a [u8]>,
    /// Per transcript slot: its header line, once one came.
    pub helper: Vec<Option<&'a [u8]>>,
    /// Per transcript slot: its features, keys in natural order.
    pub inner: Vec<Vec<(CowNaturalSort, Vec<&'a [u8]>)>>,
}

impl<'a> Layers<'a> {
    pub open spec fn gslots(&self) -> Map<Seq<u8>, usize> {
        key_slots(self.gene_slots)
    }

    pub open spec fn tslots(&self) -> Map<Seq<u8>, usize> {
        key_slots(self.transcript_slots)
    }

    pub open spec fn wf(&self) -> bool {
        &&& slots_match(self.gslots(), self.gene_ids@)
        &&& self.mapper@.len() == self.gene_ids@.len()
        &&& slots_match(self.tslots(), self.transcript_ids@)
        &&& self.helper@.len() == self.transcript_ids@.len()
        &&& self.inner@.len() == self.transcript_ids@.len()
        &&& forall|s: int|
            0 <= s < self.inner@.len() ==> keys_ascending(feature_view(#[trigger] self.inner@[s]@))
        &&& forall|s: int, j: int|
            0 <= s < self.mapper@.len() && 0 <= j < self.mapper@[s]@.len() ==> {
                let t = (#[trigger] self.mapper@[s]@[j])@;
                &&& self.tslots().contains_key(t)
                &&& self.helper@[self.tslots()[t] as int] is Some
            }
    }

    pub open spec fn view(&self) -> LayersModel {
        LayersModel {
            genes: self.layer@.map_values(|e: (u32, &'a [u8], &'a [u8])| gene_view(e)),
            mapper: Map::new(
                |k: Seq<u8>| self.gslots().contains_key(k),
                |k: Seq<u8>| views(self.mapper@[self.gslots()[k] as int]@),
            ),
            helper: Map::new(
                |k: Seq<u8>|
                    self.tslots().contains_key(k) && self.helper@[self.tslots()[k] as int] is Some,
                |k: Seq<u8>| self.helper@[self.tslots()[k] as int]->Some_0@,
            ),
            inner: Map::new(
                |k: Seq<u8>|
                    self.tslots().contains_key(k) && self.inner@[self.tslots()[k] as int]@.len()
                        > 0,
                |k: Seq<u8>| feature_view(self.inner@[self.tslots()[k] as int]@),
            ),
        }
    }

    /// An empty index.
    pub fn new() -> (r: Self)
        ensures
            r.wf(),
            r@ == empty_model(),
    {
        let r = Layers {
            layer: Vec::new(),
            gene_slots: KeyIndex::new(),
            gene_ids: Vec::new(),
            mapper: Vec::new(),
            transcript_slots: KeyIndex::new(),
            transcript_ids: Vec::new(),
            helper: Vec::new(),
            inner: Vec::new(),
        };
        proof {
            assert(r@.genes =~= Seq::<(u32, Seq<u8>, Seq<u8>)>::empty());
            assert(r@.mapper =~= Map::<Seq<u8>, Seq<Seq<u8>>>::empty());
            assert(r@.helper =~= Map::<Seq<u8>, Seq<u8>>::empty());
            assert(r@.inner =~= Map::<Seq<u8>, FeatureList>::empty());
        }
        r
    }

    /// The slot of gene `id`, made when it has none.
    fn gene_slot(&mut self, id: &'a [u8]) -> (s: usize)
        requires
            old(self).wf(),
        ensures
            final(self).wf(),
            s < final(self).mapper@.len(),
            final(self).gslots().contains_key(id@),
            final(self).gslots()[id@] == s,
            !old(self).gslots().contains_key(id@) ==> s == old(self).mapper@.len(),
            old(self).gslots().contains_key(id@) ==> final(self).mapper@ == old(self).mapper@,
            !old(self).gslots().contains_key(id@) ==> {
                &&& final(self).mapper@ == old(self).mapper@.push(final(self).mapper@.last())
                &&& final(self).mapper@.last()@.len() == 0
            },
            final(self).layer == old(self).layer,
            final(self).transcript_slots == old(self).transcript_slots,
            final(self).transcript_ids == old(self).transcript_ids,
            final(self).helper == old(self).helper,
            final(self).inner == old(self).inner,
            old(self).gslots().contains_key(id@) ==> final(self).gslots() == old(self).gslots(),
            !old(self).gslots().contains_key(id@) ==> final(self).gslots() == old(
                self,
            ).gslots().insert(id@, s),
    {
        match self.gene_slots.get(id) {
            Some(s) => s,
            None => {
                let s = self.gene_ids.len();
                self.gene_slots.insert(vstd::slice::slice_to_vec(id), s);
                self.gene_ids.push(id);
                self.mapper.push(Vec::new());
                proof {
                    let g = self.gslots();
                    assert forall|i: int| 0 <= i < self.gene_ids@.len() implies g.contains_key(
                        #[trigger] self.gene_ids@[i]@,
                    ) && g[self.gene_ids@[i]@] == i by {
                        if i < s {
                            assert(old(self).gene_ids@[i] == self.gene_ids@[i]);
                        }
                    }
                    assert forall|s2: int, j: int|
                        0 <= s2 < self.mapper@.len() && 0 <= j < self.mapper@[s2]@.len() implies {
                        let t = (#[trigger] self.mapper@[s2]@[j])@;
                        &&& self.tslots().contains_key(t)
                        &&& self.helper@[self.tslots()[t] as int] is Some
                    } by {
                        assert(s2 < s);
                        assert(self.mapper@[s2] == old(self).mapper@[s2]);
                    }
                }
                s
            },
        }
    }

    /// The slot of transcript `id`, made when it has none.
    fn transcript_slot(&mut self, id: &'a [u8]) -> (s: usize)
        requires
            old(self).wf(),
        ensures
            final(self).wf(),
            s < final(self).helper@.len(),
            final(self).tslots().contains_key(id@),
            final(self).tslots()[id@] == s,
            !old(self).tslots().contains_key(id@) ==> s == old(self).helper@.len(),
            final(self)@ == old(self)@,
            final(self).layer == old(self).layer,
            final(self).gene_slots == old(self).gene_slots,
            final(self).gene_ids == old(self).gene_ids,
            final(self).mapper == old(self).mapper,
            old(self).tslots().contains_key(id@) ==> {
                &&& final(self).tslots() == old(self).tslots()
                &&& final(self).helper == old(self).helper
                &&& final(self).inner == old(self).inner
            },
            !old(self).tslots().contains_key(id@) ==> {
                &&& final(self).tslots() == old(self).tslots().insert(id@, s)
                &&& final(self).helper@ == old(self).helper@.push(None)
                &&& final(self).inner@ == old(self).inner@.push(final(self).inner@.last())
                &&& final(self).inner@.last()@.len() == 0
            },
    {
        match self.transcript_slots.get(id) {
            Some(s) => s,
            None => {
                let s = self.transcript_ids.len();
                self.transcript_slots.insert(vstd::slice::slice_to_vec(id), s);
                self.transcript_ids.push(id);
                self.helper.push(None);
                self.inner.push(Vec::new());
                proof {
                    let g = self.tslots();
                    assert forall|i: int| 0 <= i < self.transcript_ids@.len() implies g.contains_key(
                        #[trigger] self.transcript_ids@[i]@,
                    ) && g[self.transcript_ids@[i]@] == i by {
                        if i < s {
                            assert(old(self).transcript_ids@[i] == self.transcript_ids@[i]);
                        }
                    }
                    assert forall|s2: int|
                        0 <= s2 < self.inner@.len() implies keys_ascending(
                        feature_view(#[trigger] self.inner@[s2]@),
                    ) by {
                        if s2 < s {
                            assert(self.inner@[s2] == old(self).inner@[s2]);
                        } else {
                            assert(feature_view(self.inner@[s2]@) =~= Seq::<
                                (Seq<u8>, Seq<Seq<u8>>),
                            >::empty());
                        }
                    }
                    assert forall|s2: int, j: int|
                        0 <= s2 < self.mapper@.len() && 0 <= j < self.mapper@[s2]@.len() implies {
                        let t = (#[trigger] self.mapper@[s2]@[j])@;
                        &&& self.tslots().contains_key(t)
                        &&& self.helper@[self.tslots()[t] as int] is Some
                    } by {
                        let t = self.mapper@[s2]@[j]@;
                        assert(old(self).tslots().contains_key(t));
                        assert(old(self).tslots()[t] < s);
                    }
                    assert(self@.helper =~= old(self)@.helper);
                    assert(self@.inner =~= old(self)@.inner);
                    assert(self@.mapper =~= old(self)@.mapper);
                }
                s
            },
        }
    }

    /// Takes in a `transcript` line: its id joins its gene's list, and it
    /// becomes the header unless one came before.
    fn add_transcript(&mut self, gene: &'a [u8], id: &'a [u8], line: &'a [u8])
        requires
            old(self).wf(),
        ensures
            final(self).wf(),
            final(self)@ == (LayersModel {
                mapper: old(self)@.mapper.insert(
                    gene@,
                    transcripts_of(old(self)@, gene@).push(id@),
                ),
                helper: if old(self)@.helper.contains_key(id@) {
                    old(self)@.helper
                } else {
                    old(self)@.helper.insert(id@, line@)
                },
                ..old(self)@
            }),
    {
        let ghost m0 = self@;
        let t = self.transcript_slot(id);
        let ghost m1 = self@;
        let ghost pre = *self;
        if self.helper[t].is_none() {
            self.helper.set(t, Some(line));
        }
        proof {
            assert(self@.inner =~= m1.inner);
            assert(self@.mapper =~= m1.mapper);
            assert(self@.genes =~= m1.genes);
            if m0.helper.contains_key(id@) {
                assert(self@.helper =~= m0.helper);
            } else {
                assert(self@.helper =~= m0.helper.insert(id@, line@));
            }
        }
        let ghost m2 = self@;
        let ghost mid = *self;
        let g = self.gene_slot(gene);
        let ghost pre_list = self.mapper@[g as int];
        self.mapper[g].push(id);
        proof {
            assert(self.mapper@[g as int]@ == pre_list@.push(id));
            assert(self@.helper =~= m2.helper);
            assert(self@.inner =~= m2.inner);
            assert(self@.genes =~= m2.genes);
            assert(views(self.mapper@[g as int]@) =~= transcripts_of(m0, gene@).push(id@)) by {
                if m0.mapper.contains_key(gene@) {
                    assert(mid.gslots()[gene@] == g);
                } else {
                    assert(pre_list@ =~= Seq::<&[u8]>::empty());
                }
            }
            assert(self@.mapper =~= m0.mapper.insert(gene@, transcripts_of(m0, gene@).push(id@)));
            assert forall|s2: int, j: int|
                0 <= s2 < self.mapper@.len() && 0 <= j < self.mapper@[s2]@.len() implies {
                let tt = (#[trigger] self.mapper@[s2]@[j])@;
                &&& self.tslots().contains_key(tt)
                &&& self.helper@[self.tslots()[tt] as int] is Some
            } by {
                if s2 != g || j < pre_list@.len() {
                    assert(self.mapper@[s2]@[j] == mid.mapper@[s2]@[j]);
                }
            }
        }
    }

    proof fn lemma_slot_features(mid: Layers<'a>, t: int, id: Seq<u8>)
        requires
            mid.wf(),
            mid.tslots().contains_key(id),
            mid.tslots()[id] == t,
        ensures
            feature_view(mid.inner@[t]@) == features_of(mid@, id),
    {
        if !mid@.inner.contains_key(id) {
            assert(feature_view(mid.inner@[t]@) =~= Seq::<(Seq<u8>, Seq<Seq<u8>>)>::empty());
        }
    }

    proof fn lemma_refile(mid: Layers<'a>, post: Layers<'a>, t: int, id: Seq<u8>, fl: FeatureList)
        requires
            mid.wf(),
            mid.tslots().contains_key(id),
            mid.tslots()[id] == t,
            post.layer == mid.layer,
            post.gene_slots == mid.gene_slots,
            post.gene_ids == mid.gene_ids,
            post.mapper == mid.mapper,
            post.transcript_slots == mid.transcript_slots,
            post.transcript_ids == mid.transcript_ids,
            post.helper == mid.helper,
            post.inner@ == mid.inner@.update(t, post.inner@[t]),
            feature_view(post.inner@[t]@) == fl,
            fl.len() >= 1,
            keys_ascending(fl),
        ensures
            post.wf(),
            post@ == (LayersModel { inner: mid@.inner.insert(id, fl), ..mid@ }),
    {
        assert(post@.helper =~= mid@.helper);
        assert(post@.mapper =~= mid@.mapper);
        assert(post@.genes =~= mid@.genes);
        assert(post@.inner =~= mid@.inner.insert(id, fl));
        assert forall|s2: int|
            0 <= s2 < post.inner@.len() implies keys_ascending(
            feature_view(#[trigger] post.inner@[s2]@),
        ) by {
            if s2 != t {
                assert(post.inner@[s2] == mid.inner@[s2]);
            }
        }
    }

    /// Files a feature line of transcript `id` under `key`: replacing what
    /// the key held, or after it.
    #[verifier::spinoff_prover]
    #[verifier::rlimit(100)]
    fn add_feature_line(&mut self, id: &'a [u8], key: Vec<u8>, line: &'a [u8], replace: bool)
        requires
            old(self).wf(),
        ensures
            final(self).wf(),
            final(self)@ == (LayersModel {
                inner: old(self)@.inner.insert(
                    id@,
                    if replace {
                        put_feature(features_of(old(self)@, id@), key@, line@)
                    } else {
                        add_feature(features_of(old(self)@, id@), key@, line@)
                    },
                ),
                ..old(self)@
            }),
    {
        let ghost m0 = self@;
        let t = self.transcript_slot(id);
        let ghost mid = *self;
        proof {
            Self::lemma_slot_features(mid, t as int, id@);
        }
        let ghost kv = key@;
        let ghost fl = if replace {
            put_feature(features_of(m0, id@), kv, line@)
        } else {
            add_feature(features_of(m0, id@), kv, line@)
        };
        place_feature(&mut self.inner[t], key, line, replace);
        proof {
            crate::features::lemma_placed_nonempty(features_of(m0, id@), kv, line@);
            Self::lemma_refile(mid, *self, t as int, id@, fl);
        }
    }

    /// Takes in one record of the chromosome.
    pub fn route(&mut self, r: &Record<'a>)
        requires
            old(self).wf(),
        ensures
            final(self).wf(),
            final(self)@ == route(old(self)@, *r),
    {
        if bytes_eq(r.feat, "gene".as_bytes()) {
            let ghost m0 = self@;
            self.layer.push(r.outer_layer());
            proof {
                assert(self@.genes =~= m0.genes.push((r.start, r.gene_id@, r.line@)));
                assert(self@.mapper =~= m0.mapper);
                assert(self@.helper =~= m0.helper);
                assert(self@.inner =~= m0.inner);
            }
        } else if bytes_eq(r.feat, "transcript".as_bytes()) {
            self.add_transcript(r.gene_id, r.transcript_id, r.line);
        } else {
            let (number, suffix) = r.inner_layer();
            if suffix != 101 {
                let mut key = vstd::slice::slice_to_vec(number);
                key.push(suffix);
                self.add_feature_line(r.transcript_id, key, r.line, true);
            } else {
                self.add_feature_line(r.transcript_id, vstd::slice::slice_to_vec(r.feat), r.line, false);
            }
        }
    }

    /// Builds the index of one chromosome from its records, taken in
    /// order; its genes then stand in order of start.
    pub fn build(records: &Vec<Record<'a>>) -> (r: Self)
        ensures
            r.wf(),
            r@.mapper == build_model(records@).mapper,
            r@.helper == build_model(records@).helper,
            r@.inner == build_model(records@).inner,
            r@.genes.to_multiset() == build_model(records@).genes.to_multiset(),
            r@.genes.to_multiset() == gene_entries(records@).to_multiset(),
            starts_ascending(r@.genes),
    {
        let mut acc = Layers::new();
        let mut i: usize = 0;
        while i < records.len()
            invariant
                i <= records@.len(),
                acc.wf(),
                acc@ == build_model(records@.take(i as int)),
            decreases records@.len() - i,
        {
            proof {
                assert(records@.take(i + 1).drop_last() =~= records@.take(i as int));
            }
            acc.route(&records[i]);
            i = i + 1;
        }
        proof {
            assert(records@.take(records@.len() as int) =~= records@);
        }
        let ghost before = acc;
        sort_by_start(&mut acc.layer);
        proof {
            lemma_genes_complete(records@);
            lemma_map_multiset(
                before.layer@,
                acc.layer@,
                |e: (u32, &'a [u8], &'a [u8])| gene_view(e),
            );
            assert(acc@.mapper =~= before@.mapper);
            assert(acc@.helper =~= before@.helper);
            assert(acc@.inner =~= before@.inner);
            assert forall|i2: int, j: int| 0 <= i2 < j < acc@.genes.len() implies acc@.genes[i2].0
                <= acc@.genes[j].0 by {
                assert(acc@.genes[i2].0 == acc.layer@[i2].0);
                assert(acc@.genes[j].0 == acc.layer@[j].0);
            }
        }
        acc
    }

    /// The features of every transcript stand in natural order of their
    /// keys.
    pub proof fn lemma_features_in_order(&self, t: Seq<u8>)
        requires
            self.wf(),
            self@.inner.contains_key(t),
        ensures
            keys_ascending(self@.inner[t]),
    {
        assert(keys_ascending(feature_view(self.inner@[self.tslots()[t] as int]@)));
    }
}

impl<'a> Default for Layers<'a> {
    fn default() -> (r: Self)
        ensures
            r.wf(),
            r@ == empty_model(),
    {
        Layers::new()
    }
}

} // verus!
