use gtfsort::Record;

const CDS_LINE: &str = "1\thavana\tCDS\t2408530\t2408619\t.\t-\t0\tgene_id \"ENSG00000157911\"; gene_version \"11\"; transcript_id \"ENST00000508384\"; transcript_version \"5\"; exon_number \"3\"; gene_name \"PEX10\"; gene_source \"ensembl_havana\"; gene_biotype \"protein_coding\"; transcript_name \"PEX10-205\"; transcript_source \"havana\"; transcript_biotype \"protein_coding\"; protein_id \"ENSP00000464289\"; protein_version \"1\"; tag \"cds_end_NF\"; tag \"mRNA_end_NF\"; transcript_support_level \"3\";";

#[test]
fn valid_record() {
    let line = CDS_LINE.to_string();
    let result = Record::parse::<b' '>(&line);

    assert!(result.is_ok());

    let record = result.unwrap();
    assert_eq!(record.chrom, b"1");
    assert_eq!(record.feat, b"CDS");
    assert_eq!(record.start, 2408530);
    assert_eq!(record.gene_id, b"ENSG00000157911");
    assert_eq!(record.transcript_id, b"ENST00000508384");
    assert_eq!(record.exon_number, b"3");
    assert_eq!(record.line, line.as_bytes());
}

#[test]
fn empty_record() {
    let line = "".to_string();
    let result = Record::parse::<b' '>(&line);

    assert!(result.is_err());
    assert_eq!(result.unwrap_err(), "Empty line");
}

#[test]
fn outer_layer() {
    let line = CDS_LINE.to_string();
    let record = Record::parse::<b' '>(&line).unwrap();
    let (start, gene_id, line) = record.outer_layer();

    assert_eq!(start, 2408530);
    assert_eq!(gene_id, b"ENSG00000157911");
    assert_eq!(line, CDS_LINE.as_bytes());
}

#[test]
fn inner_layer_suffixes() {
    let make = |feat: &str| {
        format!("1\th\t{}\t5\t9\t.\t+\t.\tgene_id \"G\"; exon_number \"4\";", feat)
    };
    let cases = [
        ("exon", b'a'),
        ("CDS", b'b'),
        ("start_codon", b'c'),
        ("stop_codon", b'd'),
        ("UTR", b'e'),
    ];
    for (feat, suffix) in cases {
        let line = make(feat);
        let record = Record::parse::<b' '>(&line).unwrap();
        assert_eq!(record.inner_layer(), (&b"4"[..], suffix));
    }
}

#[test]
fn record_errors() {
    assert_eq!(Record::parse::<b' '>("chr1").unwrap_err(), "Missing source");
    assert_eq!(
        Record::parse::<b' '>("chr1\ts\tgene\t1\t2\t.\t+\t.").unwrap_err(),
        "Missing attributes"
    );
    assert_eq!(
        Record::parse::<b' '>("chr1\ts\tgene\t1\t2\t.\t+\t.\t").unwrap_err(),
        "Empty attributes"
    );
    assert_eq!(
        Record::parse::<b' '>("chr1\ts\tgene\t1\t2\t.\t+\t.\tgene_name \"X\";").unwrap_err(),
        "Missing gene_id"
    );
    assert_eq!(
        Record::parse::<b' '>("chr1\ts\tgene\tone\t2\t.\t+\t.\tgene_id \"X\";").unwrap_err(),
        "Invalid start"
    );
    assert_eq!(
        Record::parse::<b' '>("chr1\ts\tgene\t1\t4294967296\t.\t+\t.\tgene_id \"X\";")
            .unwrap_err(),
        "Invalid end"
    );
}

#[test]
fn record_positions_read_as_u32() {
    let line = "chr1\ts\tgene\t+17\t4294967295\t.\t+\t.\tgene_id \"X\";";
    let record = Record::parse::<b' '>(line).unwrap();
    assert_eq!(record.start, 17);
    assert_eq!(record.end, 4294967295);
    assert_eq!(
        Record::parse::<b' '>("chr1\ts\tgene\t+\t2\t.\t+\t.\tgene_id \"X\";").unwrap_err(),
        "Invalid start"
    );
}

#[test]
fn record_gff_separator() {
    let line = "chr1\ts\texon\t10\t20\t.\t+\t.\tID=e1;gene_id=G1;transcript_id=T1;exon_number=2";
    let record = Record::parse::<b'='>(line).unwrap();
    assert_eq!(record.gene_id, b"G1");
    assert_eq!(record.transcript_id, b"T1");
    assert_eq!(record.exon_number, b"2");
}
