//! A whole run over records held in memory: scan, classify, project.
use crate::bits::MAX_BITS;
use crate::classify::{classify_columns, fates, kept_mask};
use crate::error::FilterError;
use crate::project::{append_bytes, fasta_text, header_of, output_sequence, project};
use crate::record::{records_view, seqs_of, FastaRecord, RecordView};
use crate::scan::{bitvectors_and_counts, get_first_fasta_seq_length, uniform};
use crate::threshold::CoreThreshold;
use vstd::prelude::*;

verus! {

/// The keep mask of a run over `seqs`, whose first sequence sets the width.
pub open spec fn run_mask(seqs: Seq<Seq<u8>>, exclude_invariant: bool, core: CoreThreshold) -> Seq<
    bool,
> {
    kept_mask(fates(seqs, seqs[0].len(), exclude_invariant, core))
}

/// The output text for `recs` under `mask`: each record in order, projected.
pub open spec fn output_text(recs: Seq<RecordView>, mask: Seq<bool>) -> Seq<u8>
    decreases recs.len(),
{
    if recs.len() == 0 {
        Seq::empty()
    } else {
        output_text(recs.drop_last(), mask) + fasta_text(
            header_of(recs.last()),
            project(recs.last().2, mask),
        )
    }
}

/// The length of the earliest sequence whose length differs from the first sequence's;
/// meaningful only when the sequences are not all of one length.
pub open spec fn first_bad_length(seqs: Seq<Seq<u8>>) -> nat {
    let j = choose|j: int|
        0 <= j < seqs.len() && seqs[j].len() != seqs[0].len() && uniform(
            seqs.take(j),
            seqs[0].len(),
        );
    seqs[j].len()
}

/// The result that a run over `recs` owes.
pub open spec fn run_result(recs: Seq<RecordView>, exclude_invariant: bool, core: CoreThreshold) -> Result<
    Seq<u8>,
    FilterError,
> {
    let seqs = seqs_of(recs);
    if recs.len() == 0 {
        Err(FilterError::EmptyInput)
    } else if seqs[0].len() > MAX_BITS {
        Err(FilterError::TooManyColumns { found: seqs[0].len() as usize })
    } else if !uniform(seqs, seqs[0].len()) {
        Err(
            FilterError::LengthMismatch {
                expected: seqs[0].len() as usize,
                found: first_bad_length(seqs) as usize,
            },
        )
    } else {
        Ok(output_text(recs, run_mask(seqs, exclude_invariant, core)))
    }
}

/// The result as plain values.
pub open spec fn result_view(r: Result<Vec<u8>, FilterError>) -> Result<Seq<u8>, FilterError> {
    match r {
        Ok(v) => Ok(v@),
        Err(e) => Err(e),
    }
}

/// Filters the columns of the alignment that `records` form and returns the output text: each
/// record, in order, with its header and its projected sequence. Fails, with no output, when
/// there is no record or when the records differ in length.
pub fn filter_records(records: &[FastaRecord], exclude_invariant: bool, core: &CoreThreshold) -> (r:
    Result<Vec<u8>, FilterError>)
    ensures
        result_view(r) == run_result(records_view(records@), exclude_invariant, *core),
{
    let ghost recs = records_view(records@);
    let ghost seqs = seqs_of(recs);
    let width = match get_first_fasta_seq_length(records) {
        Ok(w) => w,
        Err(e) => return Err(e),
    };
    assert(seqs[0] == records@[0].seq@);
    let stats = match bitvectors_and_counts(records, width) {
        Ok(s) => s,
        Err(e) => {
            proof {
                let j = choose|j: int|
                    #![trigger records@[j]]
                    crate::scan::is_first_mismatch(seqs, width as nat, j) && e == (
                    FilterError::LengthMismatch {
                        expected: width,
                        found: records@[j].seq@.len() as usize,
                    });
                let k = choose|k: int|
                    0 <= k < seqs.len() && seqs[k].len() != seqs[0].len() && uniform(
                        seqs.take(k),
                        seqs[0].len(),
                    );
                lemma_first_mismatch_unique(seqs, j, k);
                assert(seqs[j] == records@[j].seq@);
            }
            return Err(e);
        },
    };
    let filter = classify_columns(&stats, exclude_invariant, core);
    let ghost mask = run_mask(seqs, exclude_invariant, *core);
    let mut out: Vec<u8> = Vec::new();
    for j in 0..records.len()
        invariant
            recs == records_view(records@),
            seqs == seqs_of(recs),
            uniform(seqs, width as nat),
            width == seqs[0].len(),
            filter.mask() == mask,
            mask.len() == width,
            out@ == output_text(recs.take(j as int), mask),
    {
        assert(seqs[j as int] == records@[j as int].seq@);
        let text = output_sequence(&records[j], &filter);
        let text = match text {
            Ok(t) => t,
            Err(e) => return Err(e),
        };
        append_bytes(&mut out, text.as_slice());
        proof {
            assert(recs.take(j + 1).drop_last() =~= recs.take(j as int));
            assert(recs[j as int] == records@[j as int]@);
        }
    }
    assert(recs.take(records.len() as int) =~= recs);
    Ok(out)
}

/// Two first mismatches are the same index.
proof fn lemma_first_mismatch_unique(seqs: Seq<Seq<u8>>, j: int, k: int)
    requires
        seqs.len() > 0,
        0 <= j < seqs.len(),
        0 <= k < seqs.len(),
        seqs[j].len() != seqs[0].len(),
        seqs[k].len() != seqs[0].len(),
        uniform(seqs.take(j), seqs[0].len()),
        uniform(seqs.take(k), seqs[0].len()),
    ensures
        j == k,
{
    if j < k {
        assert(seqs.take(k)[j] == seqs[j]);
    }
    if k < j {
        assert(seqs.take(j)[k] == seqs[k]);
    }
}

} // verus!
