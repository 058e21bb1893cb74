//! The column projector: re-emits each record with the dropped columns removed.
use crate::bits::{bits_of, ColumnBits};
use crate::classify::{count_true, ColumnFilter};
use crate::error::FilterError;
use crate::record::{FastaRecord, RecordView};
use vstd::prelude::*;

verus! {

/// The bytes of `seq` at the positions where `mask` is true, in order.
pub open spec fn project(seq: Seq<u8>, mask: Seq<bool>) -> Seq<u8>
    decreases seq.len(),
{
    if seq.len() == 0 {
        Seq::empty()
    } else {
        let rest = project(seq.drop_last(), mask.drop_last());
        if mask.last() {
            rest.push(seq.last())
        } else {
            rest
        }
    }
}

/// A projected sequence has one byte per true bit of the mask.
pub proof fn lemma_project_len(seq: Seq<u8>, mask: Seq<bool>)
    requires
        seq.len() == mask.len(),
    ensures
        project(seq, mask).len() == count_true(mask),
    decreases seq.len(),
{
    if seq.len() > 0 {
        lemma_project_len(seq.drop_last(), mask.drop_last());
    }
}

/// The header line's text: the id, then a space and the description when there is one.
pub open spec fn header_of(r: RecordView) -> Seq<u8> {
    match r.1 {
        Some(d) => r.0 + seq![32u8] + d,
        None => r.0,
    }
}

/// One output record: `>`, the header, a line break, the sequence, a line break.
pub open spec fn fasta_text(header: Seq<u8>, seq: Seq<u8>) -> Seq<u8> {
    seq![62u8] + header + seq![10u8] + seq + seq![10u8]
}

/// Appends the bytes of `src` to `out`.
pub fn append_bytes(out: &mut Vec<u8>, src: &[u8])
    ensures
        final(out)@ == old(out)@ + src@,
{
    let ghost start = out@;
    for i in 0..src.len()
        invariant
            out@ == start + src@.take(i as int),
    {
        out.push(src[i]);
        assert(start + src@.take(i + 1) =~= (start + src@.take(i as int)).push(src@[i as int]));
    }
    assert(src@.take(src@.len() as int) =~= src@);
}

/// Keeps the bytes of `seq` at the columns that `keep` marks, in column order and with their
/// case. Fails when `seq` does not have one byte per column.
pub fn remove_columns(seq: &[u8], keep: &ColumnBits) -> (r: Result<Vec<u8>, FilterError>)
    ensures
        seq@.len() == bits_of(*keep).len() ==> r is Ok && r->Ok_0@ == project(
            seq@,
            bits_of(*keep),
        ) && r->Ok_0@.len() == count_true(bits_of(*keep)),
        seq@.len() != bits_of(*keep).len() ==> r == Err::<Vec<u8>, FilterError>(
            (FilterError::LengthMismatch { expected: bits_of(*keep).len() as usize, found: seq@.len() as usize }),
        ),
{
    let n = keep.len();
    if seq.len() != n {
        return Err(FilterError::LengthMismatch { expected: n, found: seq.len() });
    }
    let ghost mask = bits_of(*keep);
    let mut kept: Vec<u8> = Vec::new();
    for i in 0..n
        invariant
            n == mask.len(),
            mask == bits_of(*keep),
            seq@.len() == n,
            kept@ == project(seq@.take(i as int), mask.take(i as int)),
    {
        proof {
            assert(seq@.take(i + 1).drop_last() =~= seq@.take(i as int));
            assert(mask.take(i + 1).drop_last() =~= mask.take(i as int));
        }
        if keep.get(i) {
            kept.push(seq[i]);
        }
    }
    proof {
        assert(seq@.take(n as int) =~= seq@);
        assert(mask.take(n as int) =~= mask);
        lemma_project_len(seq@, mask);
    }
    Ok(kept)
}

/// The header text of a record: the id, then a space and the description if it has one.
pub fn get_fasta_header(record: &FastaRecord) -> (r: Vec<u8>)
    ensures
        r@ == header_of(record@),
{
    let mut header: Vec<u8> = Vec::new();
    append_bytes(&mut header, record.id.as_slice());
    match &record.desc {
        Some(d) => {
            header.push(32u8);
            append_bytes(&mut header, d.as_slice());
        },
        None => {},
    }
    proof {
        assert(header@ =~= header_of(record@));
    }
    header
}

/// The output text of one record: its header line, then its sequence with the dropped
/// columns removed on one line. Fails when the record does not have one byte per column.
pub fn output_sequence(record: &FastaRecord, filter: &ColumnFilter) -> (r: Result<Vec<u8>, FilterError>)
    ensures
        record.seq@.len() == filter.mask().len() ==> r is Ok && r->Ok_0@ == fasta_text(
            header_of(record@),
            project(record.seq@, filter.mask()),
        ),
        record.seq@.len() != filter.mask().len() ==> r == Err::<Vec<u8>, FilterError>(
            (FilterError::LengthMismatch { expected: filter.mask().len() as usize, found: record.seq@.len() as usize }),
        ),
{
    let seq = remove_columns(record.seq.as_slice(), filter.keep());
    match seq {
        Err(e) => Err(e),
        Ok(seq) => {
            let header = get_fasta_header(record);
            let mut out: Vec<u8> = Vec::new();
            out.push(62u8);
            append_bytes(&mut out, header.as_slice());
            out.push(10u8);
            append_bytes(&mut out, seq.as_slice());
            out.push(10u8);
            proof {
                assert(out@ =~= fasta_text(header_of(record@), project(record.seq@, filter.mask())));
            }
            Ok(out)
        },
    }
}

} // verus!
