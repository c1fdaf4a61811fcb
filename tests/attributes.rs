use gtfsort::attr::attribute_value_of;
use gtfsort::{Attribute, ParseError};

#[test]
fn attr_valid_attributes() {
    let input = "gene_id \"ABC\"; transcript_id \"XYZ\"; exon_number \"1\"; exon_id \"123\";"
        .to_string();
    let attr = Attribute::parse::<b' '>(&input).unwrap();

    assert_eq!(attr.gene_id(), b"ABC");
    assert_eq!(attr.transcript_id(), b"XYZ");
    assert_eq!(attr.exon_number(), b"1");
    assert_eq!(attr.exon_id(), b"123");
}

#[test]
fn attr_invalid_attributes() {
    let input = "transcript_id \"XYZ\"; exon_number \"1\";".to_string();
    let result = Attribute::parse::<b' '>(&input);

    assert_eq!(result.unwrap_err(), ParseError::MissingGeneId(input));
}

#[test]
fn attr_get_gencode_pair_from_gene_line() {
    let line = "gene_id \"ENSG00000290825.1\"; gene_type \"lncRNA\"; gene_name \"DDX11L2\"; level 2; tag \"overlaps_pseudogene\";".to_string();

    let attrs = Attribute::parse::<b' '>(&line).unwrap();

    assert_eq!(attrs.gene_id(), String::from("ENSG00000290825.1").as_bytes());

    let bytes = line.as_bytes();
    let gene_type = attribute_value_of(bytes, b"gene_type", b' ');
    let gene_name = attribute_value_of(bytes, b"gene_name", b' ');
    let level = attribute_value_of(bytes, b"level", b' ');
    let tag = attribute_value_of(bytes, b"tag", b' ');

    assert_eq!(gene_type, Some(&b"lncRNA"[..]));
    assert_eq!(gene_name, Some(&b"DDX11L2"[..]));
    assert_eq!(level, Some(&b"2"[..]));
    assert_eq!(tag, Some(&b"overlaps_pseudogene"[..]));
}

#[test]
fn attr_get_gencode_pair_from_exon_line() {
    let line = "gene_id \"ENSG00000290825.1\"; transcript_id \"ENST00000456328.2\"; gene_type \"lncRNA\"; gene_name \"DDX11L2\"; transcript_type \"lncRNA\"; transcript_name \"DDX11L2-202\"; exon_number 2; exon_id \"ENSE00003582793.1\"; level 2; transcript_support_level \"1\"; tag \"basic\"; tag \"Ensembl_canonical\"; havana_transcript \"OTTHUMT00000362751.1\";".to_string();
    let bytes = line.as_bytes();
    let get = |k: &str| attribute_value_of(bytes, k.as_bytes(), b' ').unwrap().to_vec();

    assert_eq!(get("gene_id"), String::from("ENSG00000290825.1").into_bytes());
    assert_eq!(get("transcript_id"), String::from("ENST00000456328.2").into_bytes());
    assert_eq!(get("gene_type"), String::from("lncRNA").into_bytes());
    assert_eq!(get("gene_name"), String::from("DDX11L2").into_bytes());
    assert_eq!(get("transcript_type"), String::from("lncRNA").into_bytes());
    assert_eq!(get("transcript_name"), String::from("DDX11L2-202").into_bytes());
    assert_eq!(get("exon_number"), String::from("2").into_bytes());
    assert_eq!(get("exon_id"), String::from("ENSE00003582793.1").into_bytes());
    assert_eq!(get("level"), String::from("2").into_bytes());
    assert_eq!(get("transcript_support_level"), String::from("1").into_bytes());
    assert_eq!(get("tag"), String::from("Ensembl_canonical").into_bytes());
    assert_eq!(
        get("havana_transcript"),
        String::from("OTTHUMT00000362751.1").into_bytes()
    );
}

#[test]
fn attr_parse_gff_line() {
    let line = "chr1\tHAVANA\ttranscript\t11869\t14409\t.\t+\t.\tID=ENST00000450305.2;Parent=ENSG00000223972.6;gene_id=ENSG00000223972.6;transcript_id=ENST00000450305.2;gene_type=transcribed_unprocessed_pseudogene;gene_name=DDX11L1;transcript_type=transcribed_unprocessed_pseudogene;transcript_name=DDX11L1-201;level=2;transcript_support_level=NA;hgnc_id=HGNC:37102;ont=PGO:0000005,PGO:0000019;tag=basic,Ensembl_canonical;havana_gene=OTTHUMG00000000961.2;havana_transcript=OTTHUMT00000002844.2".to_string();
    let attr = Attribute::parse::<b'='>(&line).unwrap();

    assert_eq!(attr.gene_id(), b"ENSG00000223972.6");
    assert_eq!(attr.transcript_id(), b"ENST00000450305.2");
    assert_eq!(attr.exon_number(), b"z");
    assert_eq!(attr.exon_id(), b"0");
}

#[test]
fn attr_empty_column() {
    let result = Attribute::parse::<b' '>("");
    assert_eq!(result.unwrap_err(), ParseError::Empty);
}

#[test]
fn attr_last_pair_wins_and_quotes_trimmed() {
    let line = "gene_id \"A\"; gene_id \"\"B\"\"; transcript_id T9";
    let attr = Attribute::parse::<b' '>(line).unwrap();
    assert_eq!(attr.gene_id(), b"B");
    assert_eq!(attr.transcript_id(), b"T9");
}

#[test]
fn attr_one_leading_space_dropped() {
    // after one space is dropped, the second pair starts with a space and
    // names no key
    let line = "gene_id \"A\";  gene_id \"B\"";
    let attr = Attribute::parse::<b' '>(line).unwrap();
    assert_eq!(attr.gene_id(), b"A");
}

#[test]
fn attr_key_needs_separator() {
    // `gene_idx` names another key, and `gene_id=` uses the wrong separator.
    let line = "gene_idx \"A\"; gene_id=\"B\"";
    let result = Attribute::parse::<b' '>(line);
    assert_eq!(
        result.unwrap_err(),
        ParseError::MissingGeneId(line.to_string())
    );
}

#[test]
fn attr_trailing_whitespace_dropped() {
    let line = "gene_id \"G\"; exon_number 7 \t\r\n";
    let attr = Attribute::parse::<b' '>(line).unwrap();
    assert_eq!(attr.exon_number(), b"7");
}

#[test]
fn valid_attributes() {
    let input = "gene_id \"ABC\"; transcript_id \"XYZ\"; exon_number \"1\"; exon_id \"123\";"
        .to_string();
    let attr = Attribute::parse::<b' '>(&input).unwrap();

    assert_eq!(attr.gene_id(), b"ABC");
    assert_eq!(attr.transcript_id(), b"XYZ");
    assert_eq!(attr.exon_number(), b"1");
    assert_eq!(attr.exon_id(), b"123");
}

#[test]
fn invalid_attributes() {
    let input = "transcript_id \"XYZ\"; exon_number \"1\";".to_string();
    let result = Attribute::parse::<b' '>(&input);

    assert_eq!(result.unwrap_err(), ParseError::MissingGeneId(input));
}

#[test]
fn parse_gff_line() {
    let line = "chr1\tHAVANA\ttranscript\t11869\t14409\t.\t+\t.\tID=ENST00000450305.2;Parent=ENSG00000223972.6;gene_id=ENSG00000223972.6;transcript_id=ENST00000450305.2;gene_type=transcribed_unprocessed_pseudogene;gene_name=DDX11L1;transcript_type=transcribed_unprocessed_pseudogene;transcript_name=DDX11L1-201;level=2;transcript_support_level=NA;hgnc_id=HGNC:37102;ont=PGO:0000005,PGO:0000019;tag=basic,Ensembl_canonical;havana_gene=OTTHUMG00000000961.2;havana_transcript=OTTHUMT00000002844.2".to_string();
    let attr = Attribute::parse::<b'='>(&line).unwrap();

    assert_eq!(attr.gene_id(), b"ENSG00000223972.6");
    assert_eq!(attr.transcript_id(), b"ENST00000450305.2");
    assert_eq!(attr.exon_number(), b"z");
    assert_eq!(attr.exon_id(), b"0");
}
