//! Reading FASTA text held in memory, through `seq_io`, and filtering it in one call.
use crate::error::FilterError;
use crate::pipeline::{filter_records, result_view, run_result};
use crate::record::{records_view, FastaRecord, RecordView};
use crate::threshold::CoreThreshold;
use vstd::prelude::*;

verus! {

/// The records that `seq_io`'s FASTA reader finds in `data`, or `None` when it reports an
/// error.
pub uninterp spec fn fasta_parse(data: Seq<u8>) -> Option<Seq<RecordView>>;

/// Parsed records as plain values.
pub open spec fn parsed_view(r: Option<Vec<FastaRecord>>) -> Option<Seq<RecordView>> {
    match r {
        Some(v) => Some(records_view(v@)),
        None => None,
    }
}

/// Relies on `seq_io::fasta::Reader` over a byte slice, its `into_records` and
/// `Record::id_desc_bytes`: the records in input order, each with its header split at the
/// first space and its sequence lines joined; the first reader error ends the parse.
#[verifier::external_body]
fn parse_fasta(data: &[u8]) -> (r: Option<Vec<FastaRecord>>)
    ensures
        parsed_view(r) == fasta_parse(data@),
{
    let mut out = Vec::new();
    for rec in seq_io::fasta::Reader::new(data).into_records() {
        let rec = match rec {
            Ok(rec) => rec,
            Err(_) => return None,
        };
        let (id, desc) = seq_io::fasta::Record::id_desc_bytes(&rec);
        out.push(FastaRecord { id: id.to_vec(), desc: desc.map(|d| d.to_vec()), seq: rec.seq });
    }
    Some(out)
}

/// The records of FASTA text; fails when the text is not FASTA.
pub fn read_fasta(data: &[u8]) -> (r: Result<Vec<FastaRecord>, FilterError>)
    ensures
        fasta_parse(data@) is None ==> r == Err::<Vec<FastaRecord>, FilterError>(
            FilterError::MalformedRecord,
        ),
        fasta_parse(data@) is Some ==> r is Ok && fasta_parse(data@) == Some(
            records_view(r->Ok_0@),
        ),
{
    match parse_fasta(data) {
        Some(v) => Ok(v),
        None => Err(FilterError::MalformedRecord),
    }
}

/// Filters the columns of the alignment in FASTA text `fasta` and returns the output text.
pub fn drop_columns(fasta: &[u8], exclude_invariant: bool, core: &CoreThreshold) -> (r: Result<
    Vec<u8>,
    FilterError,
>)
    ensures
        fasta_parse(fasta@) is None ==> r == Err::<Vec<u8>, FilterError>(
            FilterError::MalformedRecord,
        ),
        fasta_parse(fasta@) is Some ==> result_view(r) == run_result(
            fasta_parse(fasta@)->Some_0,
            exclude_invariant,
            *core,
        ),
{
    match read_fasta(fasta) {
        Ok(records) => filter_records(records.as_slice(), exclude_invariant, core),
        Err(e) => Err(e),
    }
}

} // verus!
