//! FASTA records as the library sees them: an id, an optional description and the
//! sequence bytes with line breaks removed.
use vstd::prelude::*;

verus! {

/// One FASTA record.
pub struct FastaRecord {
    /// The header up to its first space.
    pub id: Vec<u8>,
    /// The header after its first space, if it has one.
    pub desc: Option<Vec<u8>>,
    /// The sequence, all lines joined.
    pub seq: Vec<u8>,
}

/// A record as plain values: id, description, sequence.
pub type RecordView = (Seq<u8>, Option<Seq<u8>>, Seq<u8>);

pub open spec fn opt_view(o: Option<Vec<u8>>) -> Option<Seq<u8>> {
    match o {
        Some(v) => Some(v@),
        None => None,
    }
}

impl View for FastaRecord {
    type V = RecordView;

    open spec fn view(&self) -> RecordView {
        (self.id@, opt_view(self.desc), self.seq@)
    }
}

/// The sequences of a list of records, in order.
pub open spec fn seqs_of(recs: Seq<RecordView>) -> Seq<Seq<u8>> {
    recs.map_values(|r: RecordView| r.2)
}

/// The records of a vector, as plain values.
pub open spec fn records_view(recs: Seq<FastaRecord>) -> Seq<RecordView> {
    recs.map_values(|r: FastaRecord| r@)
}

} // verus!
