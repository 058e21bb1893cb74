//! The alignment scanner: one pass over the records that collects, per column, which
//! canonical bases occur and how many sequences carry one.
use crate::bases::{base_of, classify_base, is_canonical, Base};
use crate::bits::{bits_of, ColumnBits, MAX_BITS};
use crate::error::FilterError;
use crate::record::{records_view, seqs_of, FastaRecord};
use vstd::prelude::*;

verus! {

/// Some sequence has base `b` at column `col`.
pub open spec fn base_seen(seqs: Seq<Seq<u8>>, col: int, b: Base) -> bool {
    exists|j: int| 0 <= j < seqs.len() && base_of(#[trigger] seqs[j][col]) == b
}

/// The number of sequences with a canonical base at column `col`.
pub open spec fn canonical_count(seqs: Seq<Seq<u8>>, col: int) -> nat
    decreases seqs.len(),
{
    if seqs.len() == 0 {
        0
    } else {
        canonical_count(seqs.drop_last(), col) + if is_canonical(seqs.last()[col]) {
            1nat
        } else {
            0nat
        }
    }
}

/// Every sequence has `width` columns.
pub open spec fn uniform(seqs: Seq<Seq<u8>>, width: nat) -> bool {
    forall|j: int| 0 <= j < seqs.len() ==> (#[trigger] seqs[j]).len() == width
}

pub proof fn lemma_base_seen_push(seqs: Seq<Seq<u8>>, s: Seq<u8>, col: int, b: Base)
    ensures
        base_seen(seqs.push(s), col, b) == (base_seen(seqs, col, b) || base_of(s[col]) == b),
{
    let t = seqs.push(s);
    if base_seen(seqs, col, b) {
        let j = choose|j: int| 0 <= j < seqs.len() && base_of(#[trigger] seqs[j][col]) == b;
        assert(t[j] == seqs[j]);
    }
    if base_of(s[col]) == b {
        assert(t[seqs.len() as int] == s);
    }
    if base_seen(t, col, b) {
        let j = choose|j: int| 0 <= j < t.len() && base_of(#[trigger] t[j][col]) == b;
        if j < seqs.len() {
            assert(t[j] == seqs[j]);
        }
    }
}

pub proof fn lemma_canonical_count_push(seqs: Seq<Seq<u8>>, s: Seq<u8>, col: int)
    ensures
        canonical_count(seqs.push(s), col) == canonical_count(seqs, col) + if is_canonical(
            s[col],
        ) {
            1nat
        } else {
            0nat
        },
{
    assert(seqs.push(s).drop_last() =~= seqs);
}

pub proof fn lemma_canonical_count_bound(seqs: Seq<Seq<u8>>, col: int)
    ensures
        canonical_count(seqs, col) <= seqs.len(),
    decreases seqs.len(),
{
    if seqs.len() > 0 {
        lemma_canonical_count_bound(seqs.drop_last(), col);
    }
}

/// Per-column base composition of the sequences added so far.
pub struct ColumnStats {
    width: usize,
    a: ColumnBits,
    c: ColumnBits,
    g: ColumnBits,
    t: ColumnBits,
    counts: Vec<usize>,
    seq_count: usize,
    seqs: Ghost<Seq<Seq<u8>>>,
}

impl ColumnStats {
    /// The sequences added so far, in order.
    pub closed spec fn sequences(&self) -> Seq<Seq<u8>> {
        self.seqs@
    }

    /// The number of columns.
    pub closed spec fn columns(&self) -> nat {
        self.width as nat
    }

    pub closed spec fn bits(&self, b: Base) -> Seq<bool> {
        match b {
            Base::A => bits_of(self.a),
            Base::C => bits_of(self.c),
            Base::G => bits_of(self.g),
            _ => bits_of(self.t),
        }
    }

    /// The fields agree with the sequences added so far.
    pub closed spec fn wf(&self) -> bool {
        &&& self.width <= MAX_BITS
        &&& bits_of(self.a).len() == self.width
        &&& bits_of(self.c).len() == self.width
        &&& bits_of(self.g).len() == self.width
        &&& bits_of(self.t).len() == self.width
        &&& self.counts@.len() == self.width
        &&& self.seq_count == self.seqs@.len()
        &&& uniform(self.seqs@, self.width as nat)
        &&& forall|col: int|
            0 <= col < self.width ==> #[trigger] bits_of(self.a)[col] == base_seen(self.seqs@, col, Base::A)
        &&& forall|col: int|
            0 <= col < self.width ==> #[trigger] bits_of(self.c)[col] == base_seen(self.seqs@, col, Base::C)
        &&& forall|col: int|
            0 <= col < self.width ==> #[trigger] bits_of(self.g)[col] == base_seen(self.seqs@, col, Base::G)
        &&& forall|col: int|
            0 <= col < self.width ==> #[trigger] bits_of(self.t)[col] == base_seen(self.seqs@, col, Base::T)
        &&& forall|col: int|
            0 <= col < self.width ==> #[trigger] self.counts@[col] == canonical_count(self.seqs@, col)
    }

    /// Statistics of `width` columns over no sequence yet.
    pub fn new(width: usize) -> (r: ColumnStats)
        requires
            width <= MAX_BITS,
        ensures
            r.wf(),
            r.columns() == width,
            r.sequences() == Seq::<Seq<u8>>::empty(),
    {
        ColumnStats {
            width,
            a: ColumnBits::repeat(false, width),
            c: ColumnBits::repeat(false, width),
            g: ColumnBits::repeat(false, width),
            t: ColumnBits::repeat(false, width),
            counts: vec![0usize; width],
            seq_count: 0,
            seqs: Ghost(Seq::empty()),
        }
    }

    /// Adds one sequence; fails, changing nothing, when its length is not the width.
    pub fn add_sequence(&mut self, seq: &[u8]) -> (r: Result<(), FilterError>)
        requires
            old(self).wf(),
            old(self).sequences().len() < usize::MAX,
        ensures
            final(self).wf(),
            final(self).columns() == old(self).columns(),
            seq@.len() == old(self).columns() ==> r is Ok && final(self).sequences() == old(
                self,
            ).sequences().push(seq@),
            seq@.len() != old(self).columns() ==> r == Err::<(), FilterError>(
                FilterError::LengthMismatch {
                    expected: old(self).columns() as usize,
                    found: seq@.len() as usize,
                },
            ) && final(self).sequences() == old(self).sequences(),
    {
        if seq.len() != self.width {
            return Err(
                FilterError::LengthMismatch {
                    expected: self.width,
                    found: seq.len(),
                },
            );
        }
        let ghost prev = self.seqs@;
        let ghost next = prev.push(seq@);
        proof {
            assert forall|col: int| 0 <= col < self.width implies canonical_count(prev, col)
                < usize::MAX by {
                lemma_canonical_count_bound(prev, col);
            }
        }
        let width = self.width;
        for i in 0..width
            invariant
                width == self.width,
                self.width == old(self).width,
                self.width <= MAX_BITS,
                seq@.len() == self.width,
                self.seqs@ == prev,
                prev == old(self).seqs@,
                next == prev.push(seq@),
                self.seq_count == prev.len(),
                uniform(prev, self.width as nat),
                bits_of(self.a).len() == self.width,
                bits_of(self.c).len() == self.width,
                bits_of(self.g).len() == self.width,
                bits_of(self.t).len() == self.width,
                self.counts@.len() == self.width,
                forall|col: int| 0 <= col < self.width ==> canonical_count(prev, col) < usize::MAX,
                forall|col: int|
                    0 <= col < self.width ==> #[trigger] bits_of(self.a)[col] == base_seen(
                        if col < i { next } else { prev },
                        col,
                        Base::A,
                    ),
                forall|col: int|
                    0 <= col < self.width ==> #[trigger] bits_of(self.c)[col] == base_seen(
                        if col < i { next } else { prev },
                        col,
                        Base::C,
                    ),
                forall|col: int|
                    0 <= col < self.width ==> #[trigger] bits_of(self.g)[col] == base_seen(
                        if col < i { next } else { prev },
                        col,
                        Base::G,
                    ),
                forall|col: int|
                    0 <= col < self.width ==> #[trigger] bits_of(self.t)[col] == base_seen(
                        if col < i { next } else { prev },
                        col,
                        Base::T,
                    ),
                forall|col: int|
                    0 <= col < self.width ==> #[trigger] self.counts@[col] == canonical_count(
                        if col < i { next } else { prev },
                        col,
                    ),
        {
            let ghost ii = i as int;
            proof {
                lemma_base_seen_push(prev, seq@, ii, Base::A);
                lemma_base_seen_push(prev, seq@, ii, Base::C);
                lemma_base_seen_push(prev, seq@, ii, Base::G);
                lemma_base_seen_push(prev, seq@, ii, Base::T);
                lemma_canonical_count_push(prev, seq@, ii);
            }
            let b = classify_base(seq[i]);
            match b {
                Base::A => self.a.set(i, true),
                Base::C => self.c.set(i, true),
                Base::G => self.g.set(i, true),
                Base::T => self.t.set(i, true),
                Base::Other => {},
            }
            if b != Base::Other {
                self.counts.set(i, self.counts[i] + 1);
            }
        }
        self.seq_count = self.seq_count + 1;
        self.seqs = Ghost(next);
        proof {
            assert forall|j: int| 0 <= j < next.len() implies (#[trigger] next[j]).len()
                == self.width by {
                if j < prev.len() {
                    assert(next[j] == prev[j]);
                }
            }
        }
        Ok(())
    }

    /// The number of columns.
    pub fn width(&self) -> (r: usize)
        ensures
            r == self.columns(),
            self.wf() ==> r <= MAX_BITS,
    {
        self.width
    }

    /// The number of sequences added.
    pub fn sequence_count(&self) -> (r: usize)
        requires
            self.wf(),
        ensures
            r == self.sequences().len(),
    {
        self.seq_count
    }

    /// Whether canonical base `b` occurs at column `col` in some sequence.
    pub fn present(&self, col: usize, b: Base) -> (r: bool)
        requires
            self.wf(),
            col < self.columns(),
            b != Base::Other,
        ensures
            r == base_seen(self.sequences(), col as int, b),
    {
        match b {
            Base::A => {
                assert(bits_of(self.a)[col as int] == base_seen(self.seqs@, col as int, Base::A));
                self.a.get(col)
            },
            Base::C => {
                assert(bits_of(self.c)[col as int] == base_seen(self.seqs@, col as int, Base::C));
                self.c.get(col)
            },
            Base::G => {
                assert(bits_of(self.g)[col as int] == base_seen(self.seqs@, col as int, Base::G));
                self.g.get(col)
            },
            Base::T => {
                assert(bits_of(self.t)[col as int] == base_seen(self.seqs@, col as int, Base::T));
                self.t.get(col)
            },
            Base::Other => false,
        }
    }

    /// The columns where canonical base `b` occurs in some sequence.
    pub fn presence(&self, b: Base) -> (r: &ColumnBits)
        requires
            self.wf(),
            b != Base::Other,
        ensures
            bits_of(*r) == Seq::new(
                self.columns(),
                |col: int| base_seen(self.sequences(), col, b),
            ),
    {
        let r = match b {
            Base::A => &self.a,
            Base::C => &self.c,
            Base::G => &self.g,
            _ => &self.t,
        };
        assert(bits_of(*r) =~= Seq::new(
            self.columns(),
            |col: int| base_seen(self.sequences(), col, b),
        ));
        r
    }

    /// The number of sequences with a canonical base at column `col`.
    pub fn canonical(&self, col: usize) -> (r: usize)
        requires
            self.wf(),
            col < self.columns(),
        ensures
            r == canonical_count(self.sequences(), col as int),
    {
        self.counts[col]
    }

    /// Per column, the number of sequences with a canonical base there.
    pub fn canonical_counts(&self) -> (r: &Vec<usize>)
        requires
            self.wf(),
        ensures
            r@.len() == self.columns(),
            forall|col: int|
                0 <= col < self.columns() ==> r@[col] == canonical_count(self.sequences(), col),
    {
        &self.counts
    }
}

} // verus!

verus! {

/// The index of the first sequence whose length is not `width`, if any.
pub open spec fn is_first_mismatch(seqs: Seq<Seq<u8>>, width: nat, j: int) -> bool {
    &&& 0 <= j < seqs.len()
    &&& seqs[j].len() != width
    &&& uniform(seqs.take(j), width)
}

/// The alignment length: the length of the first record's sequence.
pub fn get_first_fasta_seq_length(records: &[FastaRecord]) -> (r: Result<usize, FilterError>)
    ensures
        records@.len() == 0 ==> r == Err::<usize, FilterError>(FilterError::EmptyInput),
        records@.len() > 0 && records@[0].seq@.len() > MAX_BITS ==> r == Err::<usize, FilterError>(
            (FilterError::TooManyColumns { found: records@[0].seq@.len() as usize }),
        ),
        records@.len() > 0 && records@[0].seq@.len() <= MAX_BITS ==> r == Ok::<usize, FilterError>(
            records@[0].seq@.len() as usize,
        ),
{
    if records.len() == 0 {
        return Err(FilterError::EmptyInput);
    }
    let n = records[0].seq.len();
    if n > MAX_BITS {
        return Err(FilterError::TooManyColumns { found: n });
    }
    Ok(n)
}

/// Scans every record once: the presence of each canonical base and the number of canonical
/// bases per column. Fails at the first record whose length is not `alignment_length`.
pub fn bitvectors_and_counts(records: &[FastaRecord], alignment_length: usize) -> (r: Result<ColumnStats, FilterError>)
    requires
        alignment_length <= MAX_BITS,
    ensures
        uniform(seqs_of(records_view(records@)), alignment_length as nat) <==> r is Ok,
        r is Ok ==> {
            let s = r->Ok_0;
            &&& s.wf()
            &&& s.columns() == alignment_length
            &&& s.sequences() == seqs_of(records_view(records@))
        },
        r is Err ==> exists|j: int|
            #![trigger records@[j]]
            is_first_mismatch(seqs_of(records_view(records@)), alignment_length as nat, j)
                && r->Err_0 == (FilterError::LengthMismatch {
                expected: alignment_length,
                found: records@[j].seq@.len() as usize,
            }),
{
    let ghost all = seqs_of(records_view(records@));
    let mut stats = ColumnStats::new(alignment_length);
    for j in 0..records.len()
        invariant
            all == seqs_of(records_view(records@)),
            all.len() == records@.len(),
            stats.wf(),
            stats.columns() == alignment_length,
            stats.sequences() == all.take(j as int),
            uniform(all.take(j as int), alignment_length as nat),
    {
        assert(all[j as int] == records@[j as int].seq@);
        let res = stats.add_sequence(&records[j].seq);
        if res.is_err() {
            proof {
                assert(is_first_mismatch(all, alignment_length as nat, j as int));
                assert(!uniform(all, alignment_length as nat));
            }
            return Err(res.unwrap_err());
        }
        assert(all.take(j + 1) =~= all.take(j as int).push(all[j as int]));
    }
    assert(all.take(records.len() as int) =~= all);
    Ok(stats)
}

} // verus!
