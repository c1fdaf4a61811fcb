//! The features of one transcript: lines grouped under keys that are kept
//! in natural order.
use vstd::prelude::*;
use std::cmp::Ordering;

use crate::ord::{natural_cmp, natural_order, reversed, CowNaturalSort};

verus! {

/// A transcript's features: each key with its lines, keys in order.
pub type FeatureList = Seq<(Seq<u8>, Seq<Seq<u8>>)>;

pub open spec fn views<'a>(s: Seq<&'a [u8]>) -> Seq<Seq<u8>> {
    s.map_values(|x: &'a [u8]| x@)
}

pub open spec fn feature_entry<'a>(e: (CowNaturalSort, Vec<&'a [u8]>)) -> (Seq<u8>, Seq<Seq<u8>>) {
    (e.0.0@, views(e.1@))
}

pub open spec fn feature_view<'a>(fs: Seq<(CowNaturalSort, Vec<&'a [u8]>)>) -> FeatureList {
    fs.map_values(|e: (CowNaturalSort, Vec<&'a [u8]>)| feature_entry(e))
}

/// Each key comes before the next one in natural order.
pub open spec fn keys_ascending(fs: FeatureList) -> bool {
    forall|k: int|
        0 <= k < fs.len() - 1 ==> natural_order(#[trigger] fs[k].0, fs[k + 1].0)
            == Ordering::Less
}

/// Where `key` belongs: before the first key that it does not follow.
pub open spec fn feature_pos(fs: FeatureList, key: Seq<u8>) -> int
    decreases fs.len(),
{
    if fs.len() == 0 {
        0
    } else if natural_order(key, fs[0].0) != Ordering::Greater {
        0
    } else {
        1 + feature_pos(fs.drop_first(), key)
    }
}

/// `key` now holds `line` alone; an equal key keeps its place and spelling.
#[verifier::opaque]
pub open spec fn put_feature(fs: FeatureList, key: Seq<u8>, line: Seq<u8>) -> FeatureList {
    let p = feature_pos(fs, key);
    if p < fs.len() && natural_order(key, fs[p].0) == Ordering::Equal {
        fs.update(p, (fs[p].0, seq![line]))
    } else {
        fs.insert(p, (key, seq![line]))
    }
}

/// `line` joins the lines of `key`, after those already there.
#[verifier::opaque]
pub open spec fn add_feature(fs: FeatureList, key: Seq<u8>, line: Seq<u8>) -> FeatureList {
    let p = feature_pos(fs, key);
    if p < fs.len() && natural_order(key, fs[p].0) == Ordering::Equal {
        fs.update(p, (fs[p].0, fs[p].1.push(line)))
    } else {
        fs.insert(p, (key, seq![line]))
    }
}

/// Filing a line leaves at least one key.
pub proof fn lemma_placed_nonempty(fs: FeatureList, key: Seq<u8>, line: Seq<u8>)
    ensures
        put_feature(fs, key, line).len() >= 1,
        add_feature(fs, key, line).len() >= 1,
{
    reveal(put_feature);
    reveal(add_feature);
    lemma_feature_pos_bound(fs, key);
}

proof fn lemma_feature_pos_bound(fs: FeatureList, key: Seq<u8>)
    ensures
        0 <= feature_pos(fs, key) <= fs.len(),
    decreases fs.len(),
{
    if fs.len() > 0 {
        lemma_feature_pos_bound(fs.drop_first(), key);
    }
}

proof fn lemma_feature_pos(fs: FeatureList, key: Seq<u8>, i: int)
    requires
        0 <= i <= fs.len(),
        forall|m: int| 0 <= m < i ==> natural_order(key, #[trigger] fs[m].0) == Ordering::Greater,
        i == fs.len() || natural_order(key, fs[i].0) != Ordering::Greater,
    ensures
        feature_pos(fs, key) == i,
    decreases i,
{
    if i > 0 {
        let t = fs.drop_first();
        assert forall|m: int| 0 <= m < i - 1 implies natural_order(key, #[trigger] t[m].0)
            == Ordering::Greater by {
            assert(t[m] == fs[m + 1]);
        }
        if i < fs.len() {
            assert(t[i - 1] == fs[i]);
        }
        lemma_feature_pos(t, key, i - 1);
        assert(natural_order(key, fs[0].0) == Ordering::Greater);
    }
}

/// Where `key` belongs in `fs`, and whether an equal key is there.
fn find_feature<'a>(fs: &Vec<(CowNaturalSort, Vec<&'a [u8]>)>, key: &[u8]) -> (r: (usize, bool))
    ensures
        r.0 == feature_pos(feature_view(fs@), key@),
        r.0 <= fs@.len(),
        r.1 == (r.0 < fs@.len() && natural_order(key@, feature_view(fs@)[r.0 as int].0)
            == Ordering::Equal),
        r.0 < fs@.len() && !r.1 ==> natural_order(key@, feature_view(fs@)[r.0 as int].0)
            == Ordering::Less,
        r.0 > 0 ==> natural_order(feature_view(fs@)[r.0 - 1].0, key@) == Ordering::Less,
{
    let ghost fv = feature_view(fs@);
    let mut i: usize = 0;
    while i < fs.len() && matches!(natural_cmp(key, fs[i].0.0.as_slice()), Ordering::Greater)
        invariant
            fv == feature_view(fs@),
            i <= fs@.len(),
            forall|m: int| 0 <= m < i ==> natural_order(key@, #[trigger] fv[m].0) == Ordering::Greater,
            i > 0 ==> natural_order(fv[i - 1].0, key@) == Ordering::Less,
        decreases fs@.len() - i,
    {
        proof {
            assert(fv[i as int].0 == fs@[i as int].0.0@);
        }
        i = i + 1;
    }
    proof {
        if i < fs@.len() {
            assert(fv[i as int].0 == fs@[i as int].0.0@);
        }
        lemma_feature_pos(fv, key@, i as int);
    }
    let same = i < fs.len() && matches!(natural_cmp(key, fs[i].0.0.as_slice()), Ordering::Equal);
    (i, same)
}

proof fn lemma_insert_ascending(fv: FeatureList, i: int, e: (Seq<u8>, Seq<Seq<u8>>))
    requires
        keys_ascending(fv),
        0 <= i <= fv.len(),
        i > 0 ==> natural_order(fv[i - 1].0, e.0) == Ordering::Less,
        i < fv.len() ==> natural_order(e.0, fv[i].0) == Ordering::Less,
    ensures
        keys_ascending(fv.insert(i, e)),
{
    let nv = fv.insert(i, e);
    assert forall|k: int| 0 <= k < nv.len() - 1 implies natural_order(
        #[trigger] nv[k].0,
        nv[k + 1].0,
    ) == Ordering::Less by {
        if k < i - 1 {
            assert(natural_order(fv[k].0, fv[k + 1].0) == Ordering::Less);
        } else if k > i {
            assert(natural_order(fv[k - 1].0, fv[k].0) == Ordering::Less);
        }
    }
}

proof fn lemma_update_ascending(fv: FeatureList, i: int, e: (Seq<u8>, Seq<Seq<u8>>))
    requires
        keys_ascending(fv),
        0 <= i < fv.len(),
        e.0 == fv[i].0,
    ensures
        keys_ascending(fv.update(i, e)),
{
    let nv = fv.update(i, e);
    assert forall|m: int| 0 <= m < nv.len() - 1 implies natural_order(
        #[trigger] nv[m].0,
        nv[m + 1].0,
    ) == Ordering::Less by {
        assert(natural_order(fv[m].0, fv[m + 1].0) == Ordering::Less);
    }
}

proof fn lemma_view_insert<'a>(
    fs: Seq<(CowNaturalSort, Vec<&'a [u8]>)>,
    i: int,
    e: (CowNaturalSort, Vec<&'a [u8]>),
)
    requires
        0 <= i <= fs.len(),
    ensures
        feature_view(fs.insert(i, e)) == feature_view(fs).insert(i, feature_entry(e)),
{
    assert(feature_view(fs.insert(i, e)) =~= feature_view(fs).insert(i, feature_entry(e)));
}

proof fn lemma_view_update<'a>(
    fs: Seq<(CowNaturalSort, Vec<&'a [u8]>)>,
    i: int,
    e: (CowNaturalSort, Vec<&'a [u8]>),
)
    requires
        0 <= i < fs.len(),
    ensures
        feature_view(fs.update(i, e)) == feature_view(fs).update(i, feature_entry(e)),
{
    assert(feature_view(fs.update(i, e)) =~= feature_view(fs).update(i, feature_entry(e)));
}

/// Gives the entry at `i` the lines `[line]`, or adds `line` to its lines.
fn refile_at<'a>(fs: &mut Vec<(CowNaturalSort, Vec<&'a [u8]>)>, i: usize, line: &'a [u8], replace: bool)
    requires
        i < old(fs)@.len(),
    ensures
        feature_view(final(fs)@) == feature_view(old(fs)@).update(
            i as int,
            (
                feature_view(old(fs)@)[i as int].0,
                if replace {
                    seq![line@]
                } else {
                    feature_view(old(fs)@)[i as int].1.push(line@)
                },
            ),
        ),
{
    let ghost before = fs@;
    let (k, mut lines) = fs.remove(i);
    let ghost old_lines = lines@;
    proof {
        assert(before[i as int] == (k, lines));
    }
    if replace {
        lines = vec![line];
        proof {
            assert(views(lines@) =~= seq![line@]);
        }
    } else {
        lines.push(line);
        proof {
            assert(views(lines@) =~= views(old_lines).push(line@));
        }
    }
    fs.insert(i, (k, lines));
    proof {
        assert(fs@ =~= before.update(i as int, (k, lines)));
        lemma_view_update(before, i as int, (k, lines));
    }
}

/// Files `line` under `key`: with `replace` it takes the place of what the
/// key held, otherwise it is added after it.
#[verifier::spinoff_prover]
pub fn place_feature<'a>(
    fs: &mut Vec<(CowNaturalSort, Vec<&'a [u8]>)>,
    key: Vec<u8>,
    line: &'a [u8],
    replace: bool,
)
    requires
        keys_ascending(feature_view(old(fs)@)),
    ensures
        keys_ascending(feature_view(final(fs)@)),
        feature_view(final(fs)@) == if replace {
            put_feature(feature_view(old(fs)@), key@, line@)
        } else {
            add_feature(feature_view(old(fs)@), key@, line@)
        },
{
    let ghost fv = feature_view(fs@);
    let (i, same) = find_feature(fs, key.as_slice());
    proof {
        reveal(put_feature);
        reveal(add_feature);
    }
    if same {
        refile_at(fs, i, line, replace);
        proof {
            lemma_update_ascending(fv, i as int, feature_view(fs@)[i as int]);
        }
    } else {
        let ghost before = fs@;
        let entry = (CowNaturalSort::new(key), vec![line]);
        proof {
            assert(views(entry.1@) =~= seq![line@]);
        }
        fs.insert(i, entry);
        proof {
            lemma_view_insert(before, i as int, entry);
            lemma_insert_ascending(fv, i as int, feature_entry(entry));
        }
    }
}

} // verus!
