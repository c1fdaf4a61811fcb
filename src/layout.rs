//! The output of one chromosome: each gene line, then for each of its
//! transcripts the header and the features in key order. Its size is
//! known before a byte is written, and writing fills exactly that many.
use vstd::prelude::*;

use crate::features::{feature_view, views, FeatureList};
use crate::layers::{Layers, LayersModel};

verus! {

/// An id that the output needs and the index lacks.
pub enum Gap {
    /// A gene with no transcripts.
    Gene(Seq<u8>),
    /// A transcript with no features.
    Transcript(Seq<u8>),
}

/// Why a chromosome cannot be written.
#[derive(Debug, PartialEq, Eq)]
pub enum LayoutError {
    /// A gene with no transcripts; holds the gene id.
    DanglingGene(Vec<u8>),
    /// A transcript with no features; holds the transcript id.
    EmptyTranscript(Vec<u8>),
    /// The output would not fit in memory.
    TooLarge,
}

pub open spec fn error_of_gap(e: LayoutError, g: Gap) -> bool {
    match g {
        Gap::Gene(id) => e is DanglingGene && e->DanglingGene_0@ == id,
        Gap::Transcript(id) => e is EmptyTranscript && e->EmptyTranscript_0@ == id,
    }
}

/// The lines of a transcript's features, key by key.
pub open spec fn feature_lines(fs: FeatureList) -> Seq<Seq<u8>>
    decreases fs.len(),
{
    if fs.len() == 0 {
        Seq::empty()
    } else {
        feature_lines(fs.drop_last()) + fs.last().1
    }
}

/// For each transcript in `ts`: its header, then its features.
pub open spec fn transcript_lines(m: LayersModel, ts: Seq<Seq<u8>>) -> Result<Seq<Seq<u8>>, Gap>
    decreases ts.len(),
{
    if ts.len() == 0 {
        Ok(Seq::empty())
    } else {
        match transcript_lines(m, ts.drop_last()) {
            Err(g) => Err(g),
            Ok(b) => {
                let t = ts.last();
                if !m.inner.contains_key(t) {
                    Err(Gap::Transcript(t))
                } else {
                    Ok(b.push(m.helper[t]) + feature_lines(m.inner[t]))
                }
            },
        }
    }
}

/// For each gene in `gs`: its line, then its transcripts.
pub open spec fn gene_lines(m: LayersModel, gs: Seq<(u32, Seq<u8>, Seq<u8>)>) -> Result<
    Seq<Seq<u8>>,
    Gap,
>
    decreases gs.len(),
{
    if gs.len() == 0 {
        Ok(Seq::empty())
    } else {
        match gene_lines(m, gs.drop_last()) {
            Err(g) => Err(g),
            Ok(b) => {
                let g = gs.last();
                if !m.mapper.contains_key(g.1) {
                    Err(Gap::Gene(g.1))
                } else {
                    match transcript_lines(m, m.mapper[g.1]) {
                        Err(e) => Err(e),
                        Ok(tb) => Ok(b.push(g.2) + tb),
                    }
                }
            },
        }
    }
}

/// The lines that a chromosome's index writes, in order.
pub open spec fn layout(m: LayersModel) -> Result<Seq<Seq<u8>>, Gap> {
    gene_lines(m, m.genes)
}

/// The bytes of `lines`, each ended by a newline.
pub open spec fn text_of(lines: Seq<Seq<u8>>) -> Seq<u8>
    decreases lines.len(),
{
    if lines.len() == 0 {
        Seq::empty()
    } else {
        text_of(lines.drop_last()) + lines.last().push(10)
    }
}

/// The byte size of `lines`: each line's length plus one.
pub open spec fn size_of(lines: Seq<Seq<u8>>) -> nat
    decreases lines.len(),
{
    if lines.len() == 0 {
        0
    } else {
        size_of(lines.drop_last()) + lines.last().len() + 1
    }
}

/// The size that is counted ahead is the length of what is written.
pub proof fn lemma_size_is_text_len(lines: Seq<Seq<u8>>)
    ensures
        text_of(lines).len() == size_of(lines),
    decreases lines.len(),
{
    if lines.len() > 0 {
        lemma_size_is_text_len(lines.drop_last());
    }
}

pub proof fn lemma_size_concat(a: Seq<Seq<u8>>, b: Seq<Seq<u8>>)
    ensures
        size_of(a + b) == size_of(a) + size_of(b),
    decreases b.len(),
{
    if b.len() == 0 {
        assert(a + b =~= a);
    } else {
        assert((a + b).drop_last() =~= a + b.drop_last());
        lemma_size_concat(a, b.drop_last());
    }
}

/// In the output, a transcript's header comes first in its block, and its
/// features follow it, key by key.
pub proof fn lemma_transcript_block(m: LayersModel, t: Seq<u8>)
    requires
        m.helper.contains_key(t),
        m.inner.contains_key(t),
    ensures
        transcript_lines(m, seq![t]) == Ok::<Seq<Seq<u8>>, Gap>(
            seq![m.helper[t]] + feature_lines(m.inner[t]),
        ),
{
    let e = Seq::<Seq<u8>>::empty();
    assert(seq![t].drop_last() =~= e);
    assert(transcript_lines(m, e) == Ok::<Seq<Seq<u8>>, Gap>(e));
    assert(e.push(m.helper[t]) =~= seq![m.helper[t]]);
}

/// Appends the lines in `ls` to `out`.
pub(crate) fn push_lines<'a>(out: &mut Vec<&'a [u8]>, ls: &Vec<&'a [u8]>)
    ensures
        views(final(out)@) == views(old(out)@) + views(ls@),
{
    let ghost start = views(out@);
    let mut j: usize = 0;
    while j < ls.len()
        invariant
            j <= ls@.len(),
            views(out@) == start + views(ls@).take(j as int),
        decreases ls@.len() - j,
    {
        let ghost pre = out@;
        out.push(ls[j]);
        proof {
            assert(views(out@) =~= views(pre).push(ls@[j as int]@));
            assert(views(ls@).take(j + 1) =~= views(ls@).take(j as int).push(ls@[j as int]@));
            assert(views(out@) =~= start + views(ls@).take(j + 1));
        }
        j = j + 1;
    }
    proof {
        assert(views(ls@).take(ls@.len() as int) =~= views(ls@));
    }
}

/// Appends the lines of a transcript's features to `out`.
fn push_features<'a>(out: &mut Vec<&'a [u8]>, fs: &Vec<(crate::ord::CowNaturalSort, Vec<&'a [u8]>)>)
    ensures
        views(final(out)@) == views(old(out)@) + feature_lines(feature_view(fs@)),
{
    let ghost start = views(out@);
    let ghost fv = feature_view(fs@);
    let mut i: usize = 0;
    while i < fs.len()
        invariant
            i <= fs@.len(),
            fv == feature_view(fs@),
            views(out@) == start + feature_lines(fv.take(i as int)),
        decreases fs@.len() - i,
    {
        push_lines(out, &fs[i].1);
        proof {
            assert(fv.take(i + 1).drop_last() =~= fv.take(i as int));
            assert(fv.take(i + 1).last().1 == views(fs@[i as int].1@));
            assert(views(out@) =~= start + feature_lines(fv.take(i + 1)));
        }
        i = i + 1;
    }
    proof {
        assert(fv.take(fs@.len() as int) =~= fv);
    }
}

proof fn lemma_transcript_prefix_err(m: LayersModel, tv: Seq<Seq<u8>>, j: int)
    requires
        0 <= j <= tv.len(),
        transcript_lines(m, tv.take(j)) is Err,
    ensures
        transcript_lines(m, tv) == transcript_lines(m, tv.take(j)),
    decreases tv.len(),
{
    if j < tv.len() {
        assert(tv.drop_last().take(j) =~= tv.take(j));
        lemma_transcript_prefix_err(m, tv.drop_last(), j);
    } else {
        assert(tv.take(j) =~= tv);
    }
}

proof fn lemma_gene_prefix_err(m: LayersModel, gv: Seq<(u32, Seq<u8>, Seq<u8>)>, i: int)
    requires
        0 <= i <= gv.len(),
        gene_lines(m, gv.take(i)) is Err,
    ensures
        gene_lines(m, gv) == gene_lines(m, gv.take(i)),
    decreases gv.len(),
{
    if i < gv.len() {
        assert(gv.drop_last().take(i) =~= gv.take(i));
        lemma_gene_prefix_err(m, gv.drop_last(), i);
    } else {
        assert(gv.take(i) =~= gv);
    }
}

proof fn lemma_transcript_step(m: LayersModel, tv: Seq<Seq<u8>>, j: int)
    requires
        0 <= j < tv.len(),
    ensures
        transcript_lines(m, tv.take(j + 1)) == match transcript_lines(m, tv.take(j)) {
            Err(g) => Err(g),
            Ok(b) => if !m.inner.contains_key(tv[j]) {
                Err(Gap::Transcript(tv[j]))
            } else {
                Ok(b.push(m.helper[tv[j]]) + feature_lines(m.inner[tv[j]]))
            },
        },
{
    assert(tv.take(j + 1).drop_last() =~= tv.take(j));
}

proof fn lemma_gene_step(m: LayersModel, gv: Seq<(u32, Seq<u8>, Seq<u8>)>, i: int)
    requires
        0 <= i < gv.len(),
    ensures
        gene_lines(m, gv.take(i + 1)) == match gene_lines(m, gv.take(i)) {
            Err(g) => Err(g),
            Ok(b) => if !m.mapper.contains_key(gv[i].1) {
                Err(Gap::Gene(gv[i].1))
            } else {
                match transcript_lines(m, m.mapper[gv[i].1]) {
                    Err(e) => Err(e),
                    Ok(tb) => Ok(b.push(gv[i].2) + tb),
                }
            },
        },
{
    assert(gv.take(i + 1).drop_last() =~= gv.take(i));
}

impl<'a> Layers<'a> {
    /// How the slot `s` of transcript `t` shows in the view.
    proof fn lemma_transcript_view(&self, t: Seq<u8>, s: int)
        requires
            self.wf(),
            self.tslots().contains_key(t),
            self.tslots()[t] == s,
        ensures
            0 <= s < self.helper@.len(),
            self@.helper.contains_key(t) == self.helper@[s] is Some,
            self.helper@[s] is Some ==> self@.helper[t] == self.helper@[s]->Some_0@,
            self@.inner.contains_key(t) == (self.inner@[s]@.len() > 0),
            self@.inner.contains_key(t) ==> self@.inner[t] == feature_view(self.inner@[s]@),
    {
    }

    /// Appends the lines of transcripts `ts`; fails on the first that has no
    /// features.
    #[verifier::spinoff_prover]
    #[verifier::rlimit(60)]
    fn push_transcripts(&self, out: &mut Vec<&'a [u8]>, ts: &Vec<&'a [u8]>) -> (r: Result<
        (),
        LayoutError,
    >)
        requires
            self.wf(),
            forall|j: int|
                0 <= j < ts@.len() ==> self@.helper.contains_key(#[trigger] ts@[j]@),
        ensures
            match transcript_lines(self@, views(ts@)) {
                Err(g) => r is Err && error_of_gap(r->Err_0, g),
                Ok(b) => r is Ok && views(final(out)@) == views(old(out)@) + b,
            },
    {
        let ghost start = views(out@);
        let ghost tv = views(ts@);
        let ghost m = self@;
        let mut j: usize = 0;
        while j < ts.len()
            invariant
                self.wf(),
                m == self@,
                j <= ts@.len(),
                tv == views(ts@),
                forall|k: int| 0 <= k < ts@.len() ==> m.helper.contains_key(#[trigger] ts@[k]@),
                transcript_lines(m, tv.take(j as int)) is Ok,
                views(out@) == start + transcript_lines(m, tv.take(j as int))->Ok_0,
            decreases ts@.len() - j,
        {
            let t = ts[j];
            proof {
                assert(tv[j as int] == t@);
                assert(m.helper.contains_key(ts@[j as int]@));
                lemma_transcript_step(m, tv, j as int);
            }
            let s = self.transcript_slots.get(t).unwrap();
            proof {
                self.lemma_transcript_view(t@, s as int);
            }
            let header = self.helper[s].unwrap();
            if self.inner[s].len() == 0 {
                proof {
                    lemma_transcript_prefix_err(m, tv, j + 1);
                }
                return Err(LayoutError::EmptyTranscript(vstd::slice::slice_to_vec(t)));
            }
            let ghost mid = views(out@);
            let ghost pre = out@;
            out.push(header);
            proof {
                assert(views(out@) =~= views(pre).push(header@));
            }
            push_features(out, &self.inner[s]);
            proof {
                assert(views(out@) =~= start + transcript_lines(m, tv.take(j + 1))->Ok_0);
            }
            j = j + 1;
        }
        proof {
            assert(tv.take(ts@.len() as int) =~= tv);
        }
        Ok(())
    }

    /// The lines that this chromosome writes, in order: each gene line,
    /// then for each of its transcripts the header and the features.
    pub fn layout_lines(&self) -> (r: Result<Vec<&'a [u8]>, LayoutError>)
        requires
            self.wf(),
        ensures
            match layout(self@) {
                Err(g) => r is Err && error_of_gap(r->Err_0, g),
                Ok(ls) => r is Ok && views(r->Ok_0@) == ls,
            },
    {
        let mut out: Vec<&'a [u8]> = Vec::new();
        let ghost m = self@;
        let ghost gv = self@.genes;
        let mut i: usize = 0;
        while i < self.layer.len()
            invariant
                self.wf(),
                m == self@,
                i <= self.layer@.len(),
                gv == m.genes,
                gene_lines(m, gv.take(i as int)) is Ok,
                views(out@) == gene_lines(m, gv.take(i as int))->Ok_0,
            decreases self.layer@.len() - i,
        {
            let (_, gene, line) = self.layer[i];
            proof {
                assert(gv[i as int] == (self.layer@[i as int].0, gene@, line@));
                lemma_gene_step(m, gv, i as int);
            }
            let g = match self.gene_slots.get(gene) {
                Some(g) => g,
                None => {
                    proof {
                        lemma_gene_prefix_err(m, gv, i + 1);
                        assert(gv =~= m.genes);
                    }
                    return Err(LayoutError::DanglingGene(vstd::slice::slice_to_vec(gene)));
                },
            };
            let ghost pre = out@;
            out.push(line);
            proof {
                assert(views(out@) =~= views(pre).push(line@));
                assert(m.mapper.contains_key(gene@));
                assert(m.mapper[gene@] == views(self.mapper@[g as int]@));
                assert forall|k: int| 0 <= k < self.mapper@[g as int]@.len() implies m.helper.contains_key(
                    #[trigger] self.mapper@[g as int]@[k]@,
                ) by {
                    let t = self.mapper@[g as int]@[k]@;
                    assert(self.tslots().contains_key(t));
                    self.lemma_transcript_view(t, self.tslots()[t] as int);
                }
            }
            match self.push_transcripts(&mut out, &self.mapper[g]) {
                Ok(()) => {},
                Err(e) => {
                    proof {
                        lemma_gene_prefix_err(m, gv, i + 1);
                    }
                    return Err(e);
                },
            }
            proof {
                assert(views(out@) =~= gene_lines(m, gv.take(i + 1))->Ok_0);
            }
            i = i + 1;
        }
        proof {
            assert(gv.take(self.layer@.len() as int) =~= gv);
        }
        Ok(out)
    }
}

proof fn lemma_size_prefix(v: Seq<Seq<u8>>, i: int)
    requires
        0 <= i < v.len(),
    ensures
        size_of(v.take(i + 1)) == size_of(v.take(i)) + v[i].len() + 1,
        text_of(v.take(i + 1)) == text_of(v.take(i)) + v[i].push(10),
        size_of(v.take(i + 1)) <= size_of(v),
{
    assert(v.take(i + 1).drop_last() =~= v.take(i));
    assert(v =~= v.take(i + 1) + v.skip(i + 1));
    lemma_size_concat(v.take(i + 1), v.skip(i + 1));
}

/// The byte size of `lines`; `None` when it passes `usize::MAX`.
pub fn lines_size(lines: &Vec<&[u8]>) -> (r: Option<usize>)
    ensures
        match r {
            Some(n) => n == size_of(views(lines@)),
            None => size_of(views(lines@)) > usize::MAX,
        },
{
    let ghost v = views(lines@);
    let mut acc: usize = 0;
    let mut i: usize = 0;
    assert(v.take(0) =~= Seq::<Seq<u8>>::empty());
    while i < lines.len()
        invariant
            v == views(lines@),
            i <= lines@.len(),
            acc == size_of(v.take(i as int)),
        decreases lines@.len() - i,
    {
        proof {
            lemma_size_prefix(v, i as int);
            assert(v[i as int] == lines@[i as int]@);
        }
        let len = lines[i].len();
        if acc >= usize::MAX - len {
            return None;
        }
        acc = acc + len + 1;
        i = i + 1;
    }
    proof {
        assert(v.take(lines@.len() as int) =~= v);
    }
    Some(acc)
}

/// Writes `lines` into `out`, each ended by a newline; `out` holds exactly
/// their size. Returns where writing stopped.
pub fn fill_lines(lines: &Vec<&[u8]>, out: &mut [u8]) -> (pos: usize)
    requires
        old(out)@.len() == size_of(views(lines@)),
    ensures
        final(out)@ == text_of(views(lines@)),
        pos == size_of(views(lines@)),
{
    let ghost v = views(lines@);
    let ghost total = out@.len();
    let mut pos: usize = 0;
    let mut i: usize = 0;
    assert(v.take(0) =~= Seq::<Seq<u8>>::empty());
    while i < lines.len()
        invariant
            v == views(lines@),
            i <= lines@.len(),
            out@.len() == total,
            total == size_of(v),
            pos == size_of(v.take(i as int)),
            out@.subrange(0, pos as int) == text_of(v.take(i as int)),
        decreases lines@.len() - i,
    {
        proof {
            lemma_size_prefix(v, i as int);
            assert(v[i as int] == lines@[i as int]@);
        }
        let line = lines[i];
        let ghost start = pos;
        let ghost done = out@.subrange(0, pos as int);
        let mut k: usize = 0;
        while k < line.len()
            invariant
                out@.len() == total,
                start + line@.len() + 1 <= total,
                pos == start + k,
                k <= line@.len(),
                out@.subrange(0, start as int) == done,
                out@.subrange(start as int, pos as int) == line@.subrange(0, k as int),
            decreases line@.len() - k,
        {
            let ghost before = out@;
            out[pos] = line[k];
            proof {
                assert(out@.subrange(0, start as int) =~= before.subrange(0, start as int));
                assert(out@.subrange(start as int, pos + 1) =~= line@.subrange(0, k + 1));
            }
            pos = pos + 1;
            k = k + 1;
        }
        let ghost before = out@;
        out[pos] = 10;
        pos = pos + 1;
        proof {
            assert(line@.subrange(0, line@.len() as int) =~= line@);
            assert(out@.subrange(0, pos as int) =~= before.subrange(0, start as int) + line@.push(10));
        }
        i = i + 1;
    }
    proof {
        assert(v.take(lines@.len() as int) =~= v);
        assert(out@.subrange(0, pos as int) =~= out@);
    }
    pos
}

impl<'a> Layers<'a> {
    /// The exact byte size of what this chromosome writes.
    pub fn count_line_size(&self) -> (r: Result<usize, LayoutError>)
        requires
            self.wf(),
        ensures
            match layout(self@) {
                Err(g) => r is Err && error_of_gap(r->Err_0, g),
                Ok(ls) => if size_of(ls) <= usize::MAX {
                    r == Ok::<usize, LayoutError>(size_of(ls) as usize)
                } else {
                    r == Err::<usize, LayoutError>(LayoutError::TooLarge)
                },
            },
    {
        let lines = self.layout_lines()?;
        match lines_size(&lines) {
            Some(n) => Ok(n),
            None => Err(LayoutError::TooLarge),
        }
    }

    /// Writes this chromosome into `out`, which holds exactly its size (as
    /// `count_line_size` gives it). Returns the number of bytes written.
    pub fn write_into(&self, out: &mut [u8]) -> (r: Result<usize, LayoutError>)
        requires
            self.wf(),
            layout(self@) is Ok ==> old(out)@.len() == size_of(layout(self@)->Ok_0),
        ensures
            match layout(self@) {
                Err(g) => r is Err && error_of_gap(r->Err_0, g) && final(out)@ == old(out)@,
                Ok(ls) => {
                    &&& r == Ok::<usize, LayoutError>(old(out)@.len() as usize)
                    &&& final(out)@ == text_of(ls)
                },
            },
    {
        let lines = self.layout_lines()?;
        let n = fill_lines(&lines, out);
        Ok(n)
    }
}

} // verus!
