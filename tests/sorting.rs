use gtfsort::chunks::{join_records, line_cuts_of};
use gtfsort::ingest::parse_records;
use gtfsort::ord::natural_cmp;
use gtfsort::regions::region_offsets;
use gtfsort::{sort_annotations_text, CowNaturalSort, Layers, LayoutError};
use std::cmp::Ordering;

fn gtf(chrom: &str, feat: &str, start: u32, attrs: &str) -> String {
    format!("{}\tsrc\t{}\t{}\t{}\t.\t+\t.\t{}", chrom, feat, start, start + 10, attrs)
}

fn join(lines: &[String]) -> String {
    let mut s = String::new();
    for l in lines {
        s.push_str(l);
        s.push('\n');
    }
    s
}

fn sort(text: &str) -> String {
    String::from_utf8(sort_annotations_text(text, b' ').unwrap()).unwrap()
}

#[test]
fn two_chromosomes_with_exons_in_order() {
    let g1 = gtf("chr1", "gene", 100, "gene_id \"G1\";");
    let t1 = gtf("chr1", "transcript", 100, "gene_id \"G1\"; transcript_id \"T1\";");
    let e11 = gtf("chr1", "exon", 100, "gene_id \"G1\"; transcript_id \"T1\"; exon_number \"1\";");
    let e12 = gtf("chr1", "exon", 150, "gene_id \"G1\"; transcript_id \"T1\"; exon_number \"2\";");
    let g2 = gtf("chr2", "gene", 5, "gene_id \"G2\";");
    let t2 = gtf("chr2", "transcript", 5, "gene_id \"G2\"; transcript_id \"T2\";");
    let e21 = gtf("chr2", "exon", 5, "gene_id \"G2\"; transcript_id \"T2\"; exon_number \"1\";");
    let e22 = gtf("chr2", "exon", 9, "gene_id \"G2\"; transcript_id \"T2\"; exon_number \"2\";");
    let input = join(&[
        e22.clone(),
        e12.clone(),
        g2.clone(),
        t1.clone(),
        e21.clone(),
        g1.clone(),
        e11.clone(),
        t2.clone(),
    ]);
    let expected = join(&[g1, t1, e11, e12, g2, t2, e21, e22]);
    assert_eq!(sort(&input), expected);
}

#[test]
fn line_without_gene_id_is_dropped() {
    let g = gtf("chr1", "gene", 1, "gene_id \"G\";");
    let t = gtf("chr1", "transcript", 1, "gene_id \"G\"; transcript_id \"T\";");
    let bad = gtf("chr1", "exon", 1, "transcript_id \"T\"; exon_number \"1\";");
    let e = gtf("chr1", "exon", 1, "gene_id \"G\"; transcript_id \"T\"; exon_number \"1\";");
    let input = join(&[e.clone(), bad, t.clone(), g.clone()]);
    assert_eq!(sort(&input), join(&[g, t, e]));
}

fn one_gene(chrom: &str) -> Vec<String> {
    vec![
        gtf(chrom, "gene", 1, &format!("gene_id \"G{}\";", chrom)),
        gtf(chrom, "transcript", 1, &format!("gene_id \"G{}\"; transcript_id \"T{}\";", chrom, chrom)),
        gtf(
            chrom,
            "exon",
            1,
            &format!("gene_id \"G{}\"; transcript_id \"T{}\"; exon_number \"1\";", chrom, chrom),
        ),
    ]
}

#[test]
fn chromosomes_in_natural_order() {
    let mut input = Vec::new();
    for c in ["chr1", "chr10", "chr2"] {
        input.extend(one_gene(c));
    }
    let mut expected = Vec::new();
    for c in ["chr1", "chr2", "chr10"] {
        expected.extend(one_gene(c));
    }
    assert_eq!(sort(&join(&input)), join(&expected));
}

#[test]
fn duplicate_cds_keeps_last() {
    let g = gtf("chr1", "gene", 1, "gene_id \"G\";");
    let t = gtf("chr1", "transcript", 1, "gene_id \"G\"; transcript_id \"T\";");
    let c1 = gtf("chr1", "CDS", 1, "gene_id \"G\"; transcript_id \"T\"; exon_number \"1\"; tag \"first\";");
    let c2 = gtf("chr1", "CDS", 2, "gene_id \"G\"; transcript_id \"T\"; exon_number \"1\"; tag \"second\";");
    let input = join(&[g.clone(), t.clone(), c1, c2.clone()]);
    assert_eq!(sort(&input), join(&[g, t, c2]));
}

#[test]
fn other_features_kept_in_arrival_order() {
    let g = gtf("chr1", "gene", 1, "gene_id \"G\";");
    let t = gtf("chr1", "transcript", 1, "gene_id \"G\"; transcript_id \"T\";");
    let e = gtf("chr1", "exon", 1, "gene_id \"G\"; transcript_id \"T\"; exon_number \"1\";");
    let c = gtf("chr1", "CDS", 1, "gene_id \"G\"; transcript_id \"T\"; exon_number \"1\";");
    let u1 = gtf("chr1", "UTR", 5, "gene_id \"G\"; transcript_id \"T\"; tag \"u1\";");
    let u2 = gtf("chr1", "UTR", 3, "gene_id \"G\"; transcript_id \"T\"; tag \"u2\";");
    let input = join(&[u1.clone(), c.clone(), u2.clone(), e.clone(), t.clone(), g.clone()]);
    // "1a" < "1b" < "UTR" in natural order
    assert_eq!(sort(&input), join(&[g, t, e, c, u1, u2]));
}

#[test]
fn genes_ordered_by_start() {
    let mut input = Vec::new();
    let mut expected = Vec::new();
    for (id, start) in [("A", 300u32), ("B", 20), ("C", 100)] {
        let block = vec![
            gtf("chr1", "gene", start, &format!("gene_id \"{}\";", id)),
            gtf("chr1", "transcript", start, &format!("gene_id \"{}\"; transcript_id \"{}1\";", id, id)),
            gtf(
                "chr1",
                "exon",
                start,
                &format!("gene_id \"{}\"; transcript_id \"{}1\"; exon_number \"1\";", id, id),
            ),
        ];
        input.extend(block);
    }
    for (id, start) in [("B", 20u32), ("C", 100), ("A", 300)] {
        expected.push(gtf("chr1", "gene", start, &format!("gene_id \"{}\";", id)));
        expected.push(gtf("chr1", "transcript", start, &format!("gene_id \"{}\"; transcript_id \"{}1\";", id, id)));
        expected.push(gtf(
            "chr1",
            "exon",
            start,
            &format!("gene_id \"{}\"; transcript_id \"{}1\"; exon_number \"1\";", id, id),
        ));
    }
    input.reverse();
    assert_eq!(sort(&join(&input)), join(&expected));
}

#[test]
fn sorting_sorted_output_changes_nothing() {
    let mut input = Vec::new();
    for c in ["chrX", "chr10", "chr2", "chr1"] {
        input.extend(one_gene(c));
    }
    input.push(gtf("chr2", "exon", 40, "gene_id \"Gchr2\"; transcript_id \"Tchr2\"; exon_number \"10\";"));
    input.push(gtf("chr2", "exon", 30, "gene_id \"Gchr2\"; transcript_id \"Tchr2\"; exon_number \"9\";"));
    let once = sort(&join(&input));
    let twice = sort(&once);
    assert_eq!(once, twice);
}

#[test]
fn comments_and_blank_lines_are_left_out() {
    let mut lines = one_gene("chr1");
    lines.insert(0, "#!genome-build GRCh38".to_string());
    lines.insert(2, String::new());
    let input = join(&lines);
    assert_eq!(sort(&input), join(&one_gene("chr1")));
}

#[test]
fn crlf_input_and_missing_final_newline() {
    let lines = one_gene("chr1");
    let input = format!("{}\r\n{}\r\n{}", lines[2], lines[0], lines[1]);
    assert_eq!(sort(&input), join(&lines));
}

#[test]
fn gff3_attributes() {
    let input = "chr1\ts\texon\t5\t9\t.\t+\t.\tgene_id=G;transcript_id=T;exon_number=2\n\
                 chr1\ts\ttranscript\t5\t9\t.\t+\t.\tgene_id=G;transcript_id=T\n\
                 chr1\ts\tgene\t5\t9\t.\t+\t.\tgene_id=G\n\
                 chr1\ts\texon\t5\t9\t.\t+\t.\tgene_id=G;transcript_id=T;exon_number=1\n";
    let out = String::from_utf8(sort_annotations_text(input, b'=').unwrap()).unwrap();
    let expected = "chr1\ts\tgene\t5\t9\t.\t+\t.\tgene_id=G\n\
                    chr1\ts\ttranscript\t5\t9\t.\t+\t.\tgene_id=G;transcript_id=T\n\
                    chr1\ts\texon\t5\t9\t.\t+\t.\tgene_id=G;transcript_id=T;exon_number=1\n\
                    chr1\ts\texon\t5\t9\t.\t+\t.\tgene_id=G;transcript_id=T;exon_number=2\n";
    assert_eq!(out, expected);
}

#[test]
fn empty_input_gives_empty_output() {
    assert_eq!(sort_annotations_text("", b' ').unwrap(), Vec::<u8>::new());
}

#[test]
fn gene_without_transcripts_is_an_error() {
    let input = join(&[gtf("chr1", "gene", 1, "gene_id \"G\";")]);
    assert_eq!(
        sort_annotations_text(&input, b' ').unwrap_err(),
        LayoutError::DanglingGene(b"G".to_vec())
    );
}

#[test]
fn transcript_without_features_is_an_error() {
    let input = join(&[
        gtf("chr1", "gene", 1, "gene_id \"G\";"),
        gtf("chr1", "transcript", 1, "gene_id \"G\"; transcript_id \"T\";"),
    ]);
    assert_eq!(
        sort_annotations_text(&input, b' ').unwrap_err(),
        LayoutError::EmptyTranscript(b"T".to_vec())
    );
}

#[test]
fn natural_order_examples() {
    assert_eq!(natural_cmp(b"2", b"10"), Ordering::Less);
    assert_eq!(natural_cmp(b"chr2", b"chr10"), Ordering::Less);
    assert_eq!(natural_cmp(b"exon9", b"exon10"), Ordering::Less);
    assert_eq!(natural_cmp(b"10", b"2"), Ordering::Greater);
    assert_eq!(natural_cmp(b"chr1", b"chr1"), Ordering::Equal);
    assert_eq!(natural_cmp(b"1a", b"1b"), Ordering::Less);
    let a = CowNaturalSort::new(b"10b".to_vec());
    let b = CowNaturalSort::new(b"9z".to_vec());
    assert_eq!(b.natural_cmp(&a), Ordering::Less);
}

#[test]
fn counted_size_equals_bytes_written() {
    let mut lines = one_gene("chr1");
    lines.push(gtf("chr1", "UTR", 3, "gene_id \"Gchr1\"; transcript_id \"Tchr1\";"));
    let text = join(&lines);
    let records = parse_records(&text, b' ');
    assert_eq!(records.len(), 4);
    let layers = Layers::build(&records);
    let size = layers.count_line_size().unwrap();
    assert_eq!(size, text.len());
    let mut buf = vec![0u8; size];
    let written = layers.write_into(&mut buf).unwrap();
    assert_eq!(written, size);
    assert_eq!(String::from_utf8(buf).unwrap(), text);
}

#[test]
fn repeated_lines_are_each_written() {
    // a gene line twice, and its transcript line twice: each gene entry
    // lists the transcript twice
    let mut lines = one_gene("chr1");
    lines.extend(one_gene("chr1"));
    let text = join(&lines);
    let records = parse_records(&text, b' ');
    let layers = Layers::build(&records);
    let size = layers.count_line_size().unwrap();
    let mut buf = vec![0u8; size];
    layers.write_into(&mut buf).unwrap();
    assert_eq!(String::from_utf8(buf).unwrap().lines().count(), 10);
}

#[test]
fn regions_laid_end_to_end() {
    assert_eq!(region_offsets(&vec![3, 5, 2]), Some(vec![0, 3, 8, 10]));
    assert_eq!(region_offsets(&vec![]), Some(vec![0]));
    assert_eq!(region_offsets(&vec![usize::MAX, 1]), None);
}

#[test]
fn pieces_parse_like_the_whole() {
    let mut lines = Vec::new();
    for c in ["chr3", "chr1", "chr2", "chr1"] {
        lines.extend(one_gene(c));
    }
    lines.insert(4, "# a comment".to_string());
    let text = join(&lines);
    let whole = parse_records(&text, b' ');
    for n in 1..8 {
        let cuts = line_cuts_of(text.as_bytes(), n);
        assert_eq!(cuts[0], 0);
        assert_eq!(*cuts.last().unwrap(), text.len());
        assert!(cuts.len() <= n + 1);
        for w in cuts.windows(2) {
            assert!(w[0] <= w[1]);
            if w[0] > 0 {
                assert_eq!(text.as_bytes()[w[0] - 1], b'\n');
            }
        }
        let parts: Vec<_> = cuts
            .windows(2)
            .map(|w| parse_records(&text[w[0]..w[1]], b' '))
            .collect();
        assert_eq!(join_records(parts), whole);
    }
}

#[test]
fn cuts_of_empty_text() {
    assert_eq!(line_cuts_of(b"", 4), vec![0, 0]);
    assert_eq!(line_cuts_of(b"no line end", 3), vec![0, 11]);
}
