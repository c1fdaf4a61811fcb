//! The attribute column: `key<sep>value` pairs separated by `;`, of which
//! four keys are read.
use vstd::prelude::*;
use vstd::string::StringSliceAdditionalSpecFns;

use crate::bytes::{
    has_prefix, has_prefix_at, opt_view, skip_leading_from, skip_trailing_to, split,
    split_ranges, trim_end, trim_end_len, trim_quotes,
};

verus! {

/// The pairs of an attribute column, after trailing whitespace is dropped.
pub open spec fn attribute_fields(blob: Seq<u8>) -> Seq<Seq<u8>> {
    split(trim_end(blob), 59)
}

/// `field` without the one space that may lead it.
pub open spec fn drop_space(field: Seq<u8>) -> Seq<u8> {
    if field.len() > 0 && field[0] == 32 {
        field.drop_first()
    } else {
        field
    }
}

/// The unquoted value of `field` when it reads `key<sep>value` after one
/// leading space is dropped.
pub open spec fn field_value(field: Seq<u8>, key: Seq<u8>, sep: u8) -> Option<Seq<u8>> {
    let f = drop_space(field);
    if has_prefix(f, key) && f.len() > key.len() && f[key.len() as int] == sep {
        Some(trim_quotes(f.subrange(key.len() as int + 1, f.len() as int)))
    } else {
        None
    }
}

/// The value that the last field naming `key` gives.
pub open spec fn last_value(fields: Seq<Seq<u8>>, key: Seq<u8>, sep: u8) -> Option<Seq<u8>>
    decreases fields.len(),
{
    if fields.len() == 0 {
        None
    } else {
        match field_value(fields.last(), key, sep) {
            Some(v) => Some(v),
            None => last_value(fields.drop_last(), key, sep),
        }
    }
}

/// The value of `key` in the attribute column `blob`.
pub open spec fn attribute_value(blob: Seq<u8>, key: Seq<u8>, sep: u8) -> Option<Seq<u8>> {
    last_value(attribute_fields(blob), key, sep)
}

pub open spec fn value_or(v: Option<Seq<u8>>, d: Seq<u8>) -> Seq<u8> {
    match v {
        Some(x) => x,
        None => d,
    }
}

pub open spec fn gene_id_key() -> Seq<u8> {
    "gene_id".spec_bytes()
}

pub open spec fn transcript_id_key() -> Seq<u8> {
    "transcript_id".spec_bytes()
}

pub open spec fn exon_number_key() -> Seq<u8> {
    "exon_number".spec_bytes()
}

pub open spec fn exon_id_key() -> Seq<u8> {
    "exon_id".spec_bytes()
}

/// Stands for an absent `transcript_id` or `exon_id`.
pub open spec fn absent_id() -> Seq<u8> {
    "0".spec_bytes()
}

/// Stands for an absent `exon_number`; it sorts after every number.
pub open spec fn absent_exon_number() -> Seq<u8> {
    "z".spec_bytes()
}

/// The four attribute values that grouping needs, borrowed from the line.
#[derive(Debug, PartialEq)]
pub struct Attribute<'a> {
    pub gene_id: &'a [u8],
    pub transcript_id: &'a [u8],
    pub exon_number: &'a [u8],
    pub exon_id: &'a [u8],
}

#[derive(Debug, PartialEq, Eq)]
pub enum ParseError {
    /// The attribute column is empty.
    Empty,
    /// A malformed line.
    Invalid(String),
    /// A malformed `key value` pair.
    InvalidPair(String),
    /// No `gene_id` pair; holds the column.
    MissingGeneId(String),
}

/// What parsing the attribute column `blob` gives, when `gene_id` is there.
pub open spec fn attribute_of<'a>(a: Attribute<'a>, blob: Seq<u8>, sep: u8) -> bool {
    &&& attribute_value(blob, gene_id_key(), sep) == Some(a.gene_id@)
    &&& a.transcript_id@ == value_or(attribute_value(blob, transcript_id_key(), sep), absent_id())
    &&& a.exon_number@ == value_or(
        attribute_value(blob, exon_number_key(), sep),
        absent_exon_number(),
    )
    &&& a.exon_id@ == value_or(attribute_value(blob, exon_id_key(), sep), absent_id())
}

/// The value of `s[lo..hi]` as a field naming `key`.
fn field_value_at<'a>(s: &'a [u8], lo: usize, hi: usize, key: &[u8], sep: u8) -> (r: Option<
    &'a [u8],
>)
    requires
        lo <= hi <= s@.len(),
    ensures
        match r {
            Some(v) => field_value(s@.subrange(lo as int, hi as int), key@, sep) == Some(v@),
            None => field_value(s@.subrange(lo as int, hi as int), key@, sep) is None,
        },
{
    let j = if lo < hi && s[lo] == 32 {
        lo + 1
    } else {
        lo
    };
    let ghost f = s@.subrange(j as int, hi as int);
    proof {
        if j > lo {
            assert(f =~= s@.subrange(lo as int, hi as int).drop_first());
        }
    }
    if has_prefix_at(s, j, hi, key) && hi - j > key.len() && s[j + key.len()] == sep {
        let vlo = skip_leading_from(s, j + key.len() + 1, hi, 34);
        let vhi = skip_trailing_to(s, vlo, hi, 34);
        proof {
            assert(f.subrange(key@.len() as int + 1, f.len() as int) =~= s@.subrange(
                j + key@.len() + 1,
                hi as int,
            ));
        }
        Some(&s[vlo..vhi])
    } else {
        None
    }
}

/// Reads the four values out of an attribute column held as bytes; `None`
/// when it names no `gene_id`.
pub fn read_attributes<'a>(line: &'a [u8], sep: u8) -> (r: Option<Attribute<'a>>)
    ensures
        match attribute_value(line@, gene_id_key(), sep) {
            None => r is None,
            Some(_) => r is Some && attribute_of(r->Some_0, line@, sep),
        },
{
    let end = trim_end_len(line);
    let blob = &line[0..end];
    let ranges = split_ranges(blob, 59);
    let ghost fields = split(blob@, 59);
    let gk = "gene_id".as_bytes();
    let tk = "transcript_id".as_bytes();
    let nk = "exon_number".as_bytes();
    let ek = "exon_id".as_bytes();
    let mut gene_id: Option<&'a [u8]> = None;
    let mut transcript_id: Option<&'a [u8]> = None;
    let mut exon_number: Option<&'a [u8]> = None;
    let mut exon_id: Option<&'a [u8]> = None;
    let mut i: usize = 0;
    while i < ranges.len()
        invariant
            ranges@.len() == fields.len(),
            fields == split(blob@, 59),
            blob@ == trim_end(line@),
            i <= ranges@.len(),
            forall|k: int|
                0 <= k < ranges@.len() ==> {
                    &&& #[trigger] ranges@[k].0 <= ranges@[k].1 <= blob@.len()
                    &&& blob@.subrange(ranges@[k].0 as int, ranges@[k].1 as int) == fields[k]
                },
            gk@ == gene_id_key(),
            tk@ == transcript_id_key(),
            nk@ == exon_number_key(),
            ek@ == exon_id_key(),
            opt_view(gene_id) == last_value(fields.take(i as int), gene_id_key(), sep),
            opt_view(transcript_id) == last_value(
                fields.take(i as int),
                transcript_id_key(),
                sep,
            ),
            opt_view(exon_number) == last_value(
                fields.take(i as int),
                exon_number_key(),
                sep,
            ),
            opt_view(exon_id) == last_value(fields.take(i as int), exon_id_key(), sep),
        decreases ranges@.len() - i,
    {
        let (lo, hi) = ranges[i];
        proof {
            assert(fields.take(i + 1).drop_last() =~= fields.take(i as int));
            assert(fields.take(i + 1).last() == fields[i as int]);
        }
        match field_value_at(blob, lo, hi, gk, sep) {
            Some(v) => {
                gene_id = Some(v);
            },
            None => {},
        }
        match field_value_at(blob, lo, hi, tk, sep) {
            Some(v) => {
                transcript_id = Some(v);
            },
            None => {},
        }
        match field_value_at(blob, lo, hi, nk, sep) {
            Some(v) => {
                exon_number = Some(v);
            },
            None => {},
        }
        match field_value_at(blob, lo, hi, ek, sep) {
            Some(v) => {
                exon_id = Some(v);
            },
            None => {},
        }
        i = i + 1;
    }
    proof {
        assert(fields.take(fields.len() as int) =~= fields);
    }
    match gene_id {
        None => None,
        Some(g) => {
            let t = match transcript_id {
                Some(v) => v,
                None => "0".as_bytes(),
            };
            let n = match exon_number {
                Some(v) => v,
                None => "z".as_bytes(),
            };
            let e = match exon_id {
                Some(v) => v,
                None => "0".as_bytes(),
            };
            Some(Attribute { gene_id: g, transcript_id: t, exon_number: n, exon_id: e })
        },
    }
}

/// The value of `key` in the attribute column `line`: the last pair that
/// names it wins.
pub fn attribute_value_of<'a>(line: &'a [u8], key: &[u8], sep: u8) -> (r: Option<&'a [u8]>)
    ensures
        opt_view(r) == attribute_value(line@, key@, sep),
{
    let end = trim_end_len(line);
    let blob = &line[0..end];
    let ranges = split_ranges(blob, 59);
    let ghost fields = split(blob@, 59);
    let mut found: Option<&'a [u8]> = None;
    let mut i: usize = 0;
    while i < ranges.len()
        invariant
            ranges@.len() == fields.len(),
            fields == split(blob@, 59),
            blob@ == trim_end(line@),
            i <= ranges@.len(),
            forall|k: int|
                0 <= k < ranges@.len() ==> {
                    &&& #[trigger] ranges@[k].0 <= ranges@[k].1 <= blob@.len()
                    &&& blob@.subrange(ranges@[k].0 as int, ranges@[k].1 as int) == fields[k]
                },
            opt_view(found) == last_value(fields.take(i as int), key@, sep),
        decreases ranges@.len() - i,
    {
        let (lo, hi) = ranges[i];
        proof {
            assert(fields.take(i + 1).drop_last() =~= fields.take(i as int));
            assert(fields.take(i + 1).last() == fields[i as int]);
        }
        match field_value_at(blob, lo, hi, key, sep) {
            Some(v) => {
                found = Some(v);
            },
            None => {},
        }
        i = i + 1;
    }
    proof {
        assert(fields.take(fields.len() as int) =~= fields);
    }
    found
}

impl<'a> Attribute<'a> {
    /// Parses an attribute column whose pairs use `SEP` between key and
    /// value (a space in GTF, `=` in GFF3).
    pub fn parse<const SEP: u8>(line: &'a str) -> (r: Result<Attribute<'a>, ParseError>)
        ensures
            line@.len() == 0 ==> r == Err::<Attribute<'a>, ParseError>(ParseError::Empty),
            line@.len() > 0 ==> match attribute_value(line.spec_bytes(), gene_id_key(), SEP) {
                None => r is Err && r->Err_0 is MissingGeneId && r->Err_0->MissingGeneId_0@ == line@,
                Some(_) => r is Ok && attribute_of(r->Ok_0, line.spec_bytes(), SEP),
            },
    {
        if line.is_empty() {
            return Err(ParseError::Empty);
        }
        match read_attributes(line.as_bytes(), SEP) {
            Some(a) => Ok(a),
            None => Err(ParseError::MissingGeneId(line.to_owned())),
        }
    }

    pub fn gene_id(&self) -> (r: &'a [u8])
        ensures
            r == self.gene_id,
    {
        self.gene_id
    }

    pub fn transcript_id(&self) -> (r: &'a [u8])
        ensures
            r == self.transcript_id,
    {
        self.transcript_id
    }

    pub fn exon_number(&self) -> (r: &'a [u8])
        ensures
            r == self.exon_number,
    {
        self.exon_number
    }

    pub fn exon_id(&self) -> (r: &'a [u8])
        ensures
            r == self.exon_id,
    {
        self.exon_id
    }
}

} // verus!
