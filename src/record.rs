//! One annotation line: nine tab-separated columns, of which the
//! chromosome, feature, positions and attribute column are read.
use vstd::prelude::*;
use vstd::string::StringSliceAdditionalSpecFns;

use crate::attr::{attribute_of, read_attributes, Attribute};
use crate::bytes::{split, split_ranges};

verus! {

pub open spec fn is_digit(b: u8) -> bool {
    48 <= b <= 57
}

/// The number that a run of decimal digits writes.
pub open spec fn digits_value(s: Seq<u8>) -> nat
    decreases s.len(),
{
    if s.len() == 0 {
        0
    } else {
        digits_value(s.drop_last()) * 10 + (s.last() - 48) as nat
    }
}

/// `s` without the `+` that may lead it.
pub open spec fn unsigned_digits(s: Seq<u8>) -> Seq<u8> {
    if s.len() > 1 && s[0] == 43 {
        s.drop_first()
    } else {
        s
    }
}

pub open spec fn all_digits(d: Seq<u8>) -> bool {
    forall|i: int| 0 <= i < d.len() ==> is_digit(#[trigger] d[i])
}

/// What `u32::from_str` accepts: an optional `+`, then one or more digits
/// whose value fits.
pub open spec fn decimal_u32(s: Seq<u8>) -> Option<u32> {
    let d = unsigned_digits(s);
    if d.len() > 0 && all_digits(d) && digits_value(d) <= u32::MAX {
        Some(digits_value(d) as u32)
    } else {
        None
    }
}

/// Reads `s[lo..hi]` as `u32::from_str` does.
pub fn parse_u32(s: &[u8], lo: usize, hi: usize) -> (r: Option<u32>)
    requires
        lo <= hi <= s@.len(),
    ensures
        r == decimal_u32(s@.subrange(lo as int, hi as int)),
{
    let ghost t = s@.subrange(lo as int, hi as int);
    let start = if hi - lo > 1 && s[lo] == 43 {
        lo + 1
    } else {
        lo
    };
    let ghost d = s@.subrange(start as int, hi as int);
    proof {
        if start == lo + 1 {
            assert(d =~= t.drop_first());
        }
        assert(d == unsigned_digits(t));
    }
    if start == hi {
        return None;
    }
    // the value read so far, held at u32::MAX + 1 once it is larger
    let mut acc: u64 = 0;
    let mut i = start;
    assert(s@.subrange(start as int, start as int) =~= Seq::<u8>::empty());
    while i < hi
        invariant
            lo <= start <= i <= hi <= s@.len(),
            d == s@.subrange(start as int, hi as int),
            t == s@.subrange(lo as int, hi as int),
            d == unsigned_digits(t),
            forall|k: int| start <= k < i ==> is_digit(#[trigger] s@[k]),
            acc as nat == if digits_value(s@.subrange(start as int, i as int)) <= u32::MAX {
                digits_value(s@.subrange(start as int, i as int))
            } else {
                u32::MAX as nat + 1
            },
        decreases hi - i,
    {
        let b = s[i];
        if b < 48 || b > 57 {
            proof {
                assert(!is_digit(d[i - start]));
                assert(!all_digits(d));
            }
            return None;
        }
        let ghost p = s@.subrange(start as int, i as int);
        let ghost q = s@.subrange(start as int, i + 1);
        proof {
            assert(q.drop_last() =~= p);
            assert(digits_value(q) == digits_value(p) * 10 + (b - 48) as nat);
        }
        let next = acc * 10 + (b - 48) as u64;
        acc = if next > 4294967295 {
            4294967296
        } else {
            next
        };
        proof {
            if digits_value(p) > u32::MAX {
                assert(digits_value(p) * 10 >= digits_value(p)) by (nonlinear_arith);
            }
        }
        i = i + 1;
    }
    if acc > 4294967295 {
        None
    } else {
        Some(acc as u32)
    }
}

/// One parsed line; every slice borrows from the line.
#[derive(Debug, Clone, Copy, PartialEq, Eq)]
pub struct Record<'a> {
    pub chrom: &'a [u8],
    pub feat: &'a [u8],
    pub start: u32,
    pub end: u32,
    pub gene_id: &'a [u8],
    pub transcript_id: &'a [u8],
    pub exon_number: &'a [u8],
    pub line: &'a [u8],
}

/// The message for a line that stops after `n` columns.
pub open spec fn missing_column(n: int) -> Seq<char> {
    if n < 2 {
        "Missing source"@
    } else if n < 3 {
        "Missing feature"@
    } else if n < 4 {
        "Missing start"@
    } else if n < 5 {
        "Missing end"@
    } else if n < 6 {
        "Missing score"@
    } else if n < 7 {
        "Missing strand"@
    } else if n < 8 {
        "Missing frame"@
    } else {
        "Missing attributes"@
    }
}

/// Why `line` is no record, if it is none.
pub open spec fn record_error(line: Seq<u8>, sep: u8) -> Option<Seq<char>> {
    let f = split(line, 9);
    if line.len() == 0 {
        Some("Empty line"@)
    } else if f.len() < 9 {
        Some(missing_column(f.len() as int))
    } else if f[8].len() == 0 {
        Some("Empty attributes"@)
    } else if crate::attr::attribute_value(f[8], crate::attr::gene_id_key(), sep) is None {
        Some("Missing gene_id"@)
    } else if decimal_u32(f[3]) is None {
        Some("Invalid start"@)
    } else if decimal_u32(f[4]) is None {
        Some("Invalid end"@)
    } else {
        None
    }
}

/// `r` is what `line` reads as, when it is a record.
pub open spec fn record_of<'a>(r: Record<'a>, line: Seq<u8>, sep: u8) -> bool {
    let f = split(line, 9);
    &&& r.chrom@ == f[0]
    &&& r.feat@ == f[2]
    &&& Some(r.start) == decimal_u32(f[3])
    &&& Some(r.end) == decimal_u32(f[4])
    &&& r.line@ == line
    &&& exists|a: Attribute<'a>|
        {
            &&& attribute_of(a, f[8], sep)
            &&& r.gene_id == a.gene_id
            &&& r.transcript_id == a.transcript_id
            &&& r.exon_number == a.exon_number
        }
}

/// The suffix that orders a feature among those of the same exon.
pub open spec fn kind_suffix(feat: Seq<u8>) -> u8 {
    if feat == "exon".spec_bytes() {
        97
    } else if feat == "CDS".spec_bytes() {
        98
    } else if feat == "start_codon".spec_bytes() {
        99
    } else if feat == "stop_codon".spec_bytes() {
        100
    } else {
        101
    }
}

/// Whether two byte strings are equal.
pub fn bytes_eq(a: &[u8], b: &[u8]) -> (r: bool)
    ensures
        r == (a@ == b@),
{
    if a.len() != b.len() {
        return false;
    }
    let mut i: usize = 0;
    while i < a.len()
        invariant
            a@.len() == b@.len(),
            i <= a@.len(),
            forall|k: int| 0 <= k < i ==> a@[k] == b@[k],
        decreases a@.len() - i,
    {
        if a[i] != b[i] {
            return false;
        }
        i = i + 1;
    }
    assert(a@ =~= b@);
    true
}

/// Parses one line held as bytes; `sep` separates attribute keys from
/// values.
pub fn parse_record<'a>(line: &'a [u8], sep: u8) -> (r: Result<Record<'a>, &'static str>)
    ensures
        match record_error(line@, sep) {
            Some(m) => r is Err && r->Err_0@ == m,
            None => r is Ok && record_of(r->Ok_0, line@, sep),
        },
{
    if line.len() == 0 {
        return Err("Empty line");
    }
    let cols = split_ranges(line, 9);
    let n = cols.len();
    if n < 9 {
        return Err(
            if n < 2 {
                "Missing source"
            } else if n < 3 {
                "Missing feature"
            } else if n < 4 {
                "Missing start"
            } else if n < 5 {
                "Missing end"
            } else if n < 6 {
                "Missing score"
            } else if n < 7 {
                "Missing strand"
            } else if n < 8 {
                "Missing frame"
            } else {
                "Missing attributes"
            },
        );
    }
    let attrs = &line[cols[8].0..cols[8].1];
    if attrs.len() == 0 {
        return Err("Empty attributes");
    }
    let a = match read_attributes(attrs, sep) {
        Some(a) => a,
        None => {
            return Err("Missing gene_id");
        },
    };
    let start = match parse_u32(line, cols[3].0, cols[3].1) {
        Some(v) => v,
        None => {
            return Err("Invalid start");
        },
    };
    let end = match parse_u32(line, cols[4].0, cols[4].1) {
        Some(v) => v,
        None => {
            return Err("Invalid end");
        },
    };
    let r = Record {
        chrom: &line[cols[0].0..cols[0].1],
        feat: &line[cols[2].0..cols[2].1],
        start,
        end,
        gene_id: a.gene_id,
        transcript_id: a.transcript_id,
        exon_number: a.exon_number,
        line,
    };
    assert(record_of(r, line@, sep)) by {
        assert(r.chrom@ == split(line@, 9)[0]);
    }
    Ok(r)
}

impl<'a> Record<'a> {
    /// Parses one annotation line; `SEP` separates attribute keys from
    /// values (a space in GTF, `=` in GFF3).
    pub fn parse<const SEP: u8>(line: &'a str) -> (r: Result<Self, &'static str>)
        ensures
            match record_error(line.spec_bytes(), SEP) {
                Some(m) => r is Err && r->Err_0@ == m,
                None => r is Ok && record_of(r->Ok_0, line.spec_bytes(), SEP),
            },
    {
        parse_record(line.as_bytes(), SEP)
    }

    /// The gene-level entry: start, gene id and line.
    pub fn outer_layer(&self) -> (r: (u32, &'a [u8], &'a [u8]))
        ensures
            r == (self.start, self.gene_id, self.line),
    {
        (self.start, self.gene_id, self.line)
    }

    /// The exon number and the suffix that orders this feature within it.
    pub fn inner_layer(&self) -> (r: (&'a [u8], u8))
        ensures
            r.0 == self.exon_number,
            r.1 == kind_suffix(self.feat@),
    {
        let s = if bytes_eq(self.feat, "exon".as_bytes()) {
            97
        } else if bytes_eq(self.feat, "CDS".as_bytes()) {
            98
        } else if bytes_eq(self.feat, "start_codon".as_bytes()) {
            99
        } else if bytes_eq(self.feat, "stop_codon".as_bytes()) {
            100
        } else {
            101
        };
        (self.exon_number, s)
    }
}

} // verus!
