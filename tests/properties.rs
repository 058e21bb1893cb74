use core_snp_filter::bases::{classify_base, Base};
use core_snp_filter::classify::{classify_columns, fate_of_column, ColumnFate};
use core_snp_filter::error::FilterError;
use core_snp_filter::fasta::{drop_columns, read_fasta};
use core_snp_filter::pipeline::filter_records;
use core_snp_filter::project::{get_fasta_header, output_sequence, remove_columns};
use core_snp_filter::record::FastaRecord;
use core_snp_filter::scan::{bitvectors_and_counts, ColumnStats};
use core_snp_filter::threshold::{check_arguments, CoreThreshold};

fn threshold(text: &str) -> CoreThreshold {
    check_arguments(text.as_bytes()).unwrap()
}

fn run(text: &str, exclude_invariant: bool, core: &str) -> Result<String, FilterError> {
    drop_columns(text.as_bytes(), exclude_invariant, &threshold(core))
        .map(|out| String::from_utf8(out).unwrap())
}

fn stats_of(seqs: &[&str]) -> ColumnStats {
    let mut stats = ColumnStats::new(seqs[0].len());
    for s in seqs {
        assert!(stats.add_sequence(s.as_bytes()).is_ok());
    }
    stats
}

fn record(id: &str, desc: Option<&str>, seq: &str) -> FastaRecord {
    FastaRecord {
        id: id.as_bytes().to_vec(),
        desc: desc.map(|d| d.as_bytes().to_vec()),
        seq: seq.as_bytes().to_vec(),
    }
}

fn output_width(seqs: &[&str], exclude_invariant: bool, core: &str) -> usize {
    classify_columns(&stats_of(seqs), exclude_invariant, &threshold(core)).output_width()
}

#[test]
fn all_identical_sequences_lose_every_column() {
    let out = run(">s1\nACGATCAG\n>s2\nACGATCAG\n>s3\nACGATCAG\n", true, "0.0");
    assert_eq!(out.unwrap(), ">s1\n\n>s2\n\n>s3\n\n");
}

#[test]
fn variant_positions_three_and_six_remain() {
    let out = run(">s1\nACGATCAG\n>s2\nACCATTAG\n>s3\nACGATCAG\n", true, "0");
    assert_eq!(out.unwrap(), ">s1\nGC\n>s2\nCT\n>s3\nGC\n");
}

#[test]
fn gap_columns_at_two_thirds_coverage() {
    let input = ">s1\nACGATCAG\n>s2\nAC----CG\n>s3\nAGGATCAG\n";
    assert_eq!(run(input, false, "0.6").unwrap(), input);
    assert_eq!(run(input, false, "0.7").unwrap(), ">s1\nACAG\n>s2\nACCG\n>s3\nAGAG\n");
}

#[test]
fn reconciliation_of_counts() {
    let seqs = ["AC---CGG", "CCCNNNNG", "ACXQVPAG"];
    for exclude in [false, true] {
        for core in ["0", "0.5", "0.7", "1"] {
            let filter = classify_columns(&stats_of(&seqs), exclude, &threshold(core));
            assert_eq!(filter.output_width() + filter.removed_total(), 8);
            assert_eq!(filter.keep().to_vec().iter().filter(|b| **b).count(), filter.output_width());
            for s in seqs {
                let kept = remove_columns(s.as_bytes(), filter.keep()).unwrap();
                assert_eq!(kept.len(), filter.output_width());
            }
        }
    }
}

#[test]
fn fate_breakdown() {
    // Columns: A/C mix, C only, C/X, gap/N/Q, gap/N/V, C/N/P, G/N/A, G only.
    let seqs = ["AC---CGG", "CCCNNNNG", "ACXQVPAG"];
    let filter = classify_columns(&stats_of(&seqs), true, &threshold("1.0"));
    let counts = filter.counts();
    assert_eq!(counts.invariant_c, 3);
    assert_eq!(counts.invariant_g, 1);
    assert_eq!(counts.invariant_other, 2);
    assert_eq!(counts.invariant_a, 0);
    assert_eq!(counts.invariant_t, 0);
    assert_eq!(counts.non_core, 1);
    assert_eq!(counts.kept, 1);
    assert_eq!(filter.invariant_total(), 6);
    assert_eq!(filter.removed_total(), 7);
    let stats = stats_of(&seqs);
    assert_eq!(fate_of_column(&stats, 3, true, &threshold("0")), ColumnFate::Invariant(Base::Other));
    assert_eq!(fate_of_column(&stats, 7, true, &threshold("0")), ColumnFate::Invariant(Base::G));
    assert_eq!(fate_of_column(&stats, 6, false, &threshold("0.9")), ColumnFate::NonCore);
    assert_eq!(fate_of_column(&stats, 0, false, &threshold("1")), ColumnFate::Kept);
}

#[test]
fn identity_at_zero_threshold() {
    let input = ">a first\nAC-NxGt\n>b\nac--TTT\n>c\n-------\n";
    assert_eq!(run(input, false, "0").unwrap(), input);
}

#[test]
fn all_gap_column_is_kept_without_filters() {
    let out = run(">a\nA-\n>b\nC-\n", false, "0.0");
    assert_eq!(out.unwrap(), ">a\nA-\n>b\nC-\n");
}

#[test]
fn case_does_not_change_the_kept_columns() {
    let mixed = ">a\nAcGt-a\n>b\naCgA-A\n>c\nacgTnA\n";
    let upper = ">a\nACGT-A\n>b\nACGA-A\n>c\nACGTNA\n";
    for exclude in [false, true] {
        for core in ["0", "0.8", "1"] {
            let m = run(mixed, exclude, core).unwrap();
            let u = run(upper, exclude, core).unwrap();
            assert_eq!(m.to_ascii_uppercase(), u.to_ascii_uppercase());
        }
    }
    // Each output byte keeps its input case.
    assert_eq!(run(mixed, true, "0").unwrap(), ">a\nt\n>b\nA\n>c\nT\n");
}

#[test]
fn higher_threshold_keeps_no_more_columns() {
    let seqs = ["ACG--CaGcAaT", "AcGaGCa--AcT", "ACGa----CaCT"];
    for exclude in [false, true] {
        let widths: Vec<usize> = ["0", "0.3", "0.5", "0.67", "0.7", "0.99", "1"]
            .iter()
            .map(|c| output_width(&seqs, exclude, c))
            .collect();
        assert!(widths.windows(2).all(|w| w[1] <= w[0]), "{:?}", widths);
    }
    assert_eq!(output_width(&seqs, false, "0"), 12);
    assert_eq!(output_width(&seqs, false, "1"), 6);
}

#[test]
fn unequal_lengths_fail_without_output() {
    assert_eq!(
        run(">a\nACGT\n>b\nACG\n", false, "0"),
        Err(FilterError::LengthMismatch { expected: 4, found: 3 })
    );
    let records = vec![record("a", None, "AC"), record("b", None, "AC"), record("c", None, "ACGT")];
    assert_eq!(
        filter_records(&records, true, &threshold("0")),
        Err(FilterError::LengthMismatch { expected: 2, found: 4 })
    );
}

#[test]
fn empty_input_fails() {
    assert_eq!(run("", false, "0"), Err(FilterError::EmptyInput));
    assert_eq!(filter_records(&[], false, &threshold("0")), Err(FilterError::EmptyInput));
}

#[test]
fn text_that_is_not_fasta_is_malformed() {
    assert_eq!(run("ACGT\nACGT\n", false, "0"), Err(FilterError::MalformedRecord));
    assert_eq!(read_fasta(b"hello").err(), Some(FilterError::MalformedRecord));
}

#[test]
fn adding_a_sequence_of_the_wrong_length_changes_nothing() {
    let mut stats = ColumnStats::new(3);
    assert_eq!(stats.add_sequence(b"ACG"), Ok(()));
    assert_eq!(stats.add_sequence(b"ACGT"), Err(FilterError::LengthMismatch { expected: 3, found: 4 }));
    assert_eq!(stats.sequence_count(), 1);
    assert_eq!(*stats.canonical_counts(), vec![1, 1, 1]);
    assert!(stats.present(0, Base::A));
    assert!(!stats.present(0, Base::C));
    assert_eq!(stats.canonical(2), 1);
    assert_eq!(stats.width(), 3);
}

#[test]
fn scan_reports_the_first_bad_record() {
    let records = vec![record("a", None, "ACG"), record("b", None, "A"), record("c", None, "ACGTT")];
    assert!(matches!(
        bitvectors_and_counts(&records, 3),
        Err(FilterError::LengthMismatch { expected: 3, found: 1 })
    ));
}

#[test]
fn threshold_text_is_read_exactly() {
    let t = threshold(".25");
    assert!(t.exceeds(1, 5));
    assert!(!t.exceeds(1, 4));
    let t = threshold("0.70");
    assert!(t.exceeds(2, 3));
    assert!(!threshold("0.6").exceeds(2, 3));
    assert!(!threshold("1.").exceeds(3, 3));
    assert!(threshold("1").exceeds(2, 3));
    assert!(!threshold("000.5").exceeds(1, 2));
    assert!(!threshold("0").exceeds(0, 3));
    assert!(!threshold("0.0").exceeds(0, 0));
    for bad in ["", ".", "-0.1", "1.1", "2", "0.5.", "abc", "1e-1", " 0.5", "0.1234567890123456789"] {
        assert_eq!(check_arguments(bad.as_bytes()).err(), Some(FilterError::InvalidThreshold), "{}", bad);
    }
}

#[test]
fn threshold_from_fraction() {
    assert!(CoreThreshold::new(2, 3).is_ok());
    assert!(CoreThreshold::new(3, 3).is_ok());
    assert_eq!(CoreThreshold::new(4, 3).err(), Some(FilterError::InvalidThreshold));
    assert_eq!(CoreThreshold::new(0, 0).err(), Some(FilterError::InvalidThreshold));
    let t = CoreThreshold::new(2, 3).unwrap();
    assert!(!t.exceeds(2, 3));
    assert!(t.exceeds(1, 3));
    assert!(!CoreThreshold::zero().exceeds(0, 5));
}

#[test]
fn bases_are_classified_without_case() {
    assert_eq!(classify_base(b'A'), Base::A);
    assert_eq!(classify_base(b'a'), Base::A);
    assert_eq!(classify_base(b'c'), Base::C);
    assert_eq!(classify_base(b'G'), Base::G);
    assert_eq!(classify_base(b't'), Base::T);
    assert_eq!(classify_base(b'-'), Base::Other);
    assert_eq!(classify_base(b'N'), Base::Other);
    assert_eq!(classify_base(b'u'), Base::Other);
}

#[test]
fn headers_and_records_are_formatted() {
    assert_eq!(get_fasta_header(&record("seq_1", Some("lots of stuff"), "")), b"seq_1 lots of stuff".to_vec());
    assert_eq!(get_fasta_header(&record("seq_2", None, "")), b"seq_2".to_vec());
    let filter = classify_columns(&stats_of(&["ACGT", "ACCT"]), true, &threshold("0"));
    let out = output_sequence(&record("x", Some("y z"), "AcGT"), &filter).unwrap();
    assert_eq!(out, b">x y z\nG\n".to_vec());
    assert_eq!(
        output_sequence(&record("x", None, "ACG"), &filter).err(),
        Some(FilterError::LengthMismatch { expected: 4, found: 3 })
    );
}

#[test]
fn fasta_text_is_split_into_records() {
    let records = read_fasta(b">id1 some desc\nAC\nGT\n>id2\n\n>id3 x\nT").unwrap();
    assert_eq!(records.len(), 3);
    assert_eq!(records[0].id, b"id1".to_vec());
    assert_eq!(records[0].desc, Some(b"some desc".to_vec()));
    assert_eq!(records[0].seq, b"ACGT".to_vec());
    assert_eq!(records[1].id, b"id2".to_vec());
    assert_eq!(records[1].desc, None);
    assert_eq!(records[1].seq, Vec::<u8>::new());
    assert_eq!(records[2].seq, b"T".to_vec());
}

#[test]
fn column_bits_follow_the_scan() {
    let stats = stats_of(&["AC", "AT"]);
    assert_eq!(stats.presence(Base::A).to_vec(), vec![true, false]);
    assert_eq!(stats.presence(Base::C).to_vec(), vec![false, true]);
    assert_eq!(stats.presence(Base::G).to_vec(), vec![false, false]);
    assert_eq!(stats.presence(Base::T).to_vec(), vec![false, true]);
}

