use std::io::{Read, Write};
use core_snp_filter::bases::{has_variation, Base};
use core_snp_filter::error::FilterError;
use core_snp_filter::fasta::{drop_columns, read_fasta};
use core_snp_filter::misc::{check_if_file_exists, is_gzip_header};
use core_snp_filter::scan::{bitvectors_and_counts, get_first_fasta_seq_length};
use core_snp_filter::threshold::check_arguments;

fn run(text: &str, exclude_invariant: bool, core: &str) -> Result<String, FilterError> {
    let core = check_arguments(core.as_bytes()).unwrap();
    drop_columns(text.as_bytes(), exclude_invariant, &core).map(|out| String::from_utf8(out).unwrap())
}

fn bits(values: &[u8]) -> Vec<bool> {
    values.iter().map(|v| *v == 1).collect()
}

fn gzip(contents: &str) -> Vec<u8> {
    let mut e = flate2::write::GzEncoder::new(Vec::new(), flate2::Compression::default());
    e.write_all(contents.as_bytes()).unwrap();
    e.finish().unwrap()
}

fn gunzip(data: &[u8]) -> Vec<u8> {
    let mut out = Vec::new();
    flate2::read::GzDecoder::new(data).read_to_end(&mut out).unwrap();
    out
}

#[test]
fn test_check_arguments_1() {
    assert!(check_arguments(b"0.0").is_ok());
    assert!(check_arguments(b"0.5").is_ok());
    assert!(check_arguments(b"1.0").is_ok());
}

#[test]
fn test_check_arguments_2() {
    assert_eq!(check_arguments(b"-0.1").err(), Some(FilterError::InvalidThreshold));
}

#[test]
fn test_check_arguments_3() {
    assert_eq!(check_arguments(b"1.1").err(), Some(FilterError::InvalidThreshold));
}

#[test]
fn test_has_variation() {
    assert_eq!(has_variation(false, false, false, false), false);
    assert_eq!(has_variation(true, false, false, false), false);
    assert_eq!(has_variation(false, true, false, false), false);
    assert_eq!(has_variation(false, false, true, false), false);
    assert_eq!(has_variation(false, false, false, true), false);
    assert_eq!(has_variation(true, true, false, false), true);
    assert_eq!(has_variation(false, false, true, true), true);
    assert_eq!(has_variation(true, false, true, false), true);
    assert_eq!(has_variation(false, true, false, true), true);
    assert_eq!(has_variation(false, true, true, true), true);
    assert_eq!(has_variation(true, false, true, true), true);
    assert_eq!(has_variation(true, true, false, true), true);
    assert_eq!(has_variation(true, true, true, false), true);
    assert_eq!(has_variation(true, true, true, true), true);
}

#[test]
fn test_bitvectors_and_counts_1() {
    let records = read_fasta(b">seq_1\nACGAT\n\
                               >seq_2\nGGT-A\n").unwrap();
    let Ok(stats) = bitvectors_and_counts(&records, 5) else { panic!("scan failed") };
    assert_eq!(stats.presence(Base::A).to_vec(), bits(&[1, 0, 0, 1, 1]));
    assert_eq!(stats.presence(Base::C).to_vec(), bits(&[0, 1, 0, 0, 0]));
    assert_eq!(stats.presence(Base::G).to_vec(), bits(&[1, 1, 1, 0, 0]));
    assert_eq!(stats.presence(Base::T).to_vec(), bits(&[0, 0, 1, 0, 1]));
    assert_eq!(stats.sequence_count(), 2);
    assert_eq!(*stats.canonical_counts(), vec![2, 2, 2, 1, 2]);
}

#[test]
fn test_bitvectors_and_counts_2() {
    let records = read_fasta(b">seq_1\naacgacta\n\
                               >seq_2\nAGCNACGA\n\
                               >seq_3\nacgGCTca\n").unwrap();
    let Ok(stats) = bitvectors_and_counts(&records, 8) else { panic!("scan failed") };
    assert_eq!(stats.presence(Base::A).to_vec(), bits(&[1, 1, 0, 0, 1, 0, 0, 1]));
    assert_eq!(stats.presence(Base::C).to_vec(), bits(&[0, 1, 1, 0, 1, 1, 1, 0]));
    assert_eq!(stats.presence(Base::G).to_vec(), bits(&[0, 1, 1, 1, 0, 0, 1, 0]));
    assert_eq!(stats.presence(Base::T).to_vec(), bits(&[0, 0, 0, 0, 0, 1, 1, 0]));
    assert_eq!(stats.sequence_count(), 3);
    assert_eq!(*stats.canonical_counts(), vec![3, 3, 3, 2, 3, 3, 3, 3]);
}

#[test]
fn test_drop_columns_1() {
    // No filtering - input is the same as the output.
    let out = run(">seq_1\nACGATCAG\n\
                   >seq_2\nACCATTAG\n\
                   >seq_3\nACGATCAG\n", false, "0.0");
    assert_eq!(out.unwrap(), ">seq_1\nACGATCAG\n\
                              >seq_2\nACCATTAG\n\
                              >seq_3\nACGATCAG\n");
}

#[test]
fn test_drop_columns_2() {
    // Dropping invariant sites.
    let out = run(">seq_1\nACGATCAG\n\
                   >seq_2\nACCATTAG\n\
                   >seq_3\nACGATCAG\n", true, "0.0");
    assert_eq!(out.unwrap(), ">seq_1\nGC\n\
                              >seq_2\nCT\n\
                              >seq_3\nGC\n");
}

#[test]
fn test_drop_columns_3() {
    // At 60% core, 2 out of 3 sequences is enough.
    let out = run(">seq_1\nACGATCAG\n\
                   >seq_2\nAC----CG\n\
                   >seq_3\nAGGATCAG\n", false, "0.6");
    assert_eq!(out.unwrap(), ">seq_1\nACGATCAG\n\
                              >seq_2\nAC----CG\n\
                              >seq_3\nAGGATCAG\n");
}

#[test]
fn test_drop_columns_4() {
    // At 70% core, 2 out of 3 sequences is not enough.
    let out = run(">seq_1\nACGATCAG\n\
                   >seq_2\nAC----CG\n\
                   >seq_3\nAGGATCAG\n", false, "0.7");
    assert_eq!(out.unwrap(), ">seq_1\nACAG\n\
                              >seq_2\nACCG\n\
                              >seq_3\nAGAG\n");
}

#[test]
fn test_drop_columns_5() {
    // Same as previous but dropping invariant sites.
    let out = run(">seq_1\nACGATCAG\n\
                   >seq_2\nAC----CG\n\
                   >seq_3\nAGGATCAG\n", true, "0.7");
    assert_eq!(out.unwrap(), ">seq_1\nCA\n\
                              >seq_2\nCC\n\
                              >seq_3\nGA\n");
}

#[test]
fn test_drop_columns_6() {
    // Same as previous but with some descriptions in the FASTA headers.
    let out = run(">seq_1 info\nACGATCAG\n\
                   >seq_2\nAC----CG\n\
                   >seq_3 lots of stuff\nAGGATCAG\n", true, "0.7");
    assert_eq!(out.unwrap(), ">seq_1 info\nCA\n\
                              >seq_2\nCC\n\
                              >seq_3 lots of stuff\nGA\n");
}

#[test]
fn test_drop_columns_7() {
    // Invalid input with different sequence lengths.
    let out = run(">seq_1\nACGATCAG\n\
                   >seq_2\nAC----CGA\n\
                   >seq_3\nAGGATCAG\n", true, "0.7");
    assert_eq!(out, Err(FilterError::LengthMismatch { expected: 8, found: 9 }));
}

#[test]
fn test_drop_columns_8() {
    // Every column is dropped.
    let out = run(">seq_1\nACGATCA-\n\
                   >seq_2\nAC----AC\n\
                   >seq_3\nACGATCAG\n", true, "0.7");
    assert_eq!(out.unwrap(), ">seq_1\n\n\
                              >seq_2\n\n\
                              >seq_3\n\n");
}

#[test]
fn test_drop_columns_9() {
    // Using a mixture of uppercase and lowercase - no columns dropped.
    let out = run(">seq_1\nACGAtCaGcAaT\n\
                   >seq_2\nAcGaGCaGcAcT\n\
                   >seq_3\nACGatTAgCaCT\n", false, "0.5");
    assert_eq!(out.unwrap(), ">seq_1\nACGAtCaGcAaT\n\
                              >seq_2\nAcGaGCaGcAcT\n\
                              >seq_3\nACGatTAgCaCT\n");
}

#[test]
fn test_drop_columns_10() {
    // Using a mixture of uppercase and lowercase - invariant columns dropped.
    let out = run(">seq_1\nACGAtCaGcAaT\n\
                   >seq_2\nAcGaGCaGcAcT\n\
                   >seq_3\nACGatTAgCaCT\n", true, "0.5");
    assert_eq!(out.unwrap(), ">seq_1\ntCa\n\
                              >seq_2\nGCc\n\
                              >seq_3\ntTC\n");
}

#[test]
fn test_drop_columns_11() {
    // Using a mixture of uppercase and lowercase - non-core columns dropped.
    let out = run(">seq_1\nACG--CaGcAaT\n\
                   >seq_2\nAcGaGCa--AcT\n\
                   >seq_3\nACGa----CaCT\n", false, "0.5");
    assert_eq!(out.unwrap(), ">seq_1\nACG-CacAaT\n\
                              >seq_2\nAcGaCa-AcT\n\
                              >seq_3\nACGa--CaCT\n");
}

#[test]
fn test_drop_columns_12() {
    // Using a mixture of uppercase and lowercase - invariant and non-core columns dropped.
    let out = run(">seq_1\nACG--CaGcAaT\n\
                   >seq_2\nAcGaGCa--AcT\n\
                   >seq_3\nACGa----CaCT\n", true, "0.5");
    assert_eq!(out.unwrap(), ">seq_1\na\n\
                              >seq_2\nc\n\
                              >seq_3\nC\n");
}

#[test]
fn test_drop_columns_13() {
    // Testing an input with line breaks in the FASTA sequences.
    let out = run(">seq_1\nACG--\nCaGcA\naT\n\
                   >seq_2\nAcGaG\nCa--A\ncT\n\
                   >seq_3\nACGa-\n---Ca\nCT\n", false, "0.5");
    assert_eq!(out.unwrap(), ">seq_1\nACG-CacAaT\n\
                              >seq_2\nAcGaCa-AcT\n\
                              >seq_3\nACGa--CaCT\n");
}

#[test]
fn test_drop_columns_14() {
    // Testing lots of non-base characters.
    let out = run(">seq_1\nAC---CGG\n\
                   >seq_2\nCCCNNNNG\n\
                   >seq_3\nACXQVPAG\n", true, "0.0");
    assert_eq!(out.unwrap(), ">seq_1\nAG\n\
                              >seq_2\nCN\n\
                              >seq_3\nAA\n");
}

#[test]
fn test_drop_columns_15() {
    // Testing lots of non-base characters.
    let out = run(">seq_1\nAC---CGG\n\
                   >seq_2\nCCCNNNNG\n\
                   >seq_3\nACXQVPAG\n", true, "1.0");
    assert_eq!(out.unwrap(), ">seq_1\nA\n\
                              >seq_2\nC\n\
                              >seq_3\nA\n");
}

#[test]
fn test_check_if_file_exists() {
    assert_eq!(check_if_file_exists(false), Err(FilterError::MissingFile));
    assert_eq!(check_if_file_exists(true), Ok(()));
}

#[test]
fn test_is_file_gzipped_1() {
    assert!(!is_gzip_header(b">seq_1\nACGAT\n"));
}

#[test]
fn test_is_file_gzipped_2() {
    assert!(is_gzip_header(&gzip(">seq_1\nACGAT\n")));
}

#[test]
fn test_get_first_fasta_seq_length_1() {
    let records = read_fasta(b">seq_1\nACGAT\n\
                               >seq_2\nGGTA\n\
                               >seq_3\nCTCGCATCAG\n").unwrap();
    assert_eq!(get_first_fasta_seq_length(&records), Ok(5));
}

#[test]
fn test_get_first_fasta_seq_length_2() {
    let records = read_fasta(b"").unwrap();
    assert_eq!(get_first_fasta_seq_length(&records), Err(FilterError::EmptyInput));
}

#[test]
fn test_get_first_fasta_seq_length_3() {
    let records = read_fasta(&gunzip(&gzip(""))).unwrap();
    assert_eq!(get_first_fasta_seq_length(&records), Err(FilterError::EmptyInput));
}
