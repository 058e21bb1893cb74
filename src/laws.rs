//! Properties of a run that relate its parts: every column is accounted for, a lenient run
//! changes nothing, letter case does not matter, a stricter threshold keeps no more columns,
//! and records of unequal length fail the run.
use crate::bases::{base_of, Base};
use crate::bits::MAX_BITS;
use crate::classify::{count_true, fates, kept_mask, occurrences, ColumnFate};
use crate::pipeline::{output_text, run_mask, run_result};
use crate::project::{fasta_text, header_of, lemma_project_len, project};
use crate::record::{seqs_of, RecordView};
use crate::scan::{base_seen, canonical_count, uniform};
use crate::threshold::CoreThreshold;
use vstd::prelude::*;

verus! {

/// The number of columns dropped as invariant, over all five attributions.
pub open spec fn invariant_drops(fs: Seq<ColumnFate>) -> nat {
    occurrences(fs, ColumnFate::Invariant(Base::A)) + occurrences(
        fs,
        ColumnFate::Invariant(Base::C),
    ) + occurrences(fs, ColumnFate::Invariant(Base::G)) + occurrences(
        fs,
        ColumnFate::Invariant(Base::T),
    ) + occurrences(fs, ColumnFate::Invariant(Base::Other))
}

/// The alignment length equals the kept columns plus the invariant drops plus the non-core
/// drops, and every projected sequence has exactly as many bytes as there are kept columns.
pub proof fn lemma_reconciliation(seqs: Seq<Seq<u8>>, exclude_invariant: bool, core: CoreThreshold)
    requires
        seqs.len() > 0,
        uniform(seqs, seqs[0].len()),
    ensures
        ({
            let fs = fates(seqs, seqs[0].len(), exclude_invariant, core);
            seqs[0].len() == occurrences(fs, ColumnFate::Kept) + invariant_drops(fs) + occurrences(
                fs,
                ColumnFate::NonCore,
            )
        }),
        forall|j: int|
            0 <= j < seqs.len() ==> (#[trigger] project(
                seqs[j],
                run_mask(seqs, exclude_invariant, core),
            )).len() == occurrences(
                fates(seqs, seqs[0].len(), exclude_invariant, core),
                ColumnFate::Kept,
            ),
{
    let fs = fates(seqs, seqs[0].len(), exclude_invariant, core);
    crate::classify::lemma_fates_partition(fs);
    crate::classify::lemma_kept_count(fs);
    assert forall|j: int| 0 <= j < seqs.len() implies (#[trigger] project(
        seqs[j],
        run_mask(seqs, exclude_invariant, core),
    )).len() == occurrences(fs, ColumnFate::Kept) by {
        assert(seqs[j].len() == seqs[0].len());
        lemma_project_len(seqs[j], run_mask(seqs, exclude_invariant, core));
    }
}

proof fn lemma_project_all(seq: Seq<u8>, mask: Seq<bool>)
    requires
        seq.len() == mask.len(),
        forall|i: int| 0 <= i < mask.len() ==> mask[i],
    ensures
        project(seq, mask) == seq,
    decreases seq.len(),
{
    if seq.len() > 0 {
        lemma_project_all(seq.drop_last(), mask.drop_last());
        assert(mask[mask.len() - 1]);
        assert(seq.drop_last().push(seq.last()) =~= seq);
    }
}

/// With a threshold of 0 and invariant columns kept, every column stays and every sequence
/// comes out unchanged.
pub proof fn lemma_identity(seqs: Seq<Seq<u8>>, core: CoreThreshold)
    requires
        seqs.len() > 0,
        uniform(seqs, seqs[0].len()),
        core.wf(),
        core.numer() == 0,
    ensures
        run_mask(seqs, false, core) == Seq::new(seqs[0].len(), |_c: int| true),
        forall|j: int|
            0 <= j < seqs.len() ==> #[trigger] project(seqs[j], run_mask(seqs, false, core))
                == seqs[j],
{
    let mask = run_mask(seqs, false, core);
    assert(mask =~= Seq::new(seqs[0].len(), |_c: int| true));
    assert forall|j: int| 0 <= j < seqs.len() implies #[trigger] project(seqs[j], mask)
        == seqs[j] by {
        assert(seqs[j].len() == seqs[0].len());
        lemma_project_all(seqs[j], mask);
    }
}

/// The text of `recs` written back unchanged: each record's header line and sequence line.
pub open spec fn input_text(recs: Seq<RecordView>) -> Seq<u8>
    decreases recs.len(),
{
    if recs.len() == 0 {
        Seq::empty()
    } else {
        input_text(recs.drop_last()) + fasta_text(header_of(recs.last()), recs.last().2)
    }
}

proof fn lemma_output_text_unchanged(recs: Seq<RecordView>, mask: Seq<bool>)
    requires
        forall|j: int| 0 <= j < recs.len() ==> #[trigger] project(recs[j].2, mask) == recs[j].2,
    ensures
        output_text(recs, mask) == input_text(recs),
    decreases recs.len(),
{
    if recs.len() > 0 {
        let prev = recs.drop_last();
        assert forall|j: int| 0 <= j < prev.len() implies #[trigger] project(prev[j].2, mask)
            == prev[j].2 by {
            assert(prev[j] == recs[j]);
        }
        lemma_output_text_unchanged(prev, mask);
        assert(project(recs[recs.len() - 1].2, mask) == recs[recs.len() - 1].2);
    }
}

/// With a threshold of 0 and invariant columns kept, a run over well-formed records writes
/// every record back unchanged: its header line, then its whole sequence on one line.
pub proof fn lemma_identity_output(recs: Seq<RecordView>, core: CoreThreshold)
    requires
        recs.len() > 0,
        uniform(seqs_of(recs), recs[0].2.len()),
        recs[0].2.len() <= MAX_BITS,
        core.wf(),
        core.numer() == 0,
    ensures
        run_result(recs, false, core) == Ok::<Seq<u8>, crate::error::FilterError>(
            input_text(recs),
        ),
{
    let seqs = seqs_of(recs);
    assert(seqs[0] == recs[0].2);
    lemma_identity(seqs, core);
    let mask = run_mask(seqs, false, core);
    assert forall|j: int| 0 <= j < recs.len() implies #[trigger] project(recs[j].2, mask)
        == recs[j].2 by {
        assert(seqs[j] == recs[j].2);
    }
    lemma_output_text_unchanged(recs, mask);
}

/// A byte with a lower-case canonical base turned upper case; any other byte unchanged.
pub open spec fn fold_case(b: u8) -> u8 {
    if b == 97 {
        65
    } else if b == 99 {
        67
    } else if b == 103 {
        71
    } else if b == 116 {
        84
    } else {
        b
    }
}

/// The two alignments have the same shape and differ at most in the case of canonical bases.
pub open spec fn same_but_case(s1: Seq<Seq<u8>>, s2: Seq<Seq<u8>>) -> bool {
    &&& s1.len() == s2.len()
    &&& forall|j: int| 0 <= j < s1.len() ==> (#[trigger] s1[j]).len() == s2[j].len()
    &&& forall|j: int, c: int|
        0 <= j < s1.len() && 0 <= c < s1[j].len() ==> fold_case(#[trigger] s1[j][c]) == fold_case(
            s2[j][c],
        )
}

proof fn lemma_base_of_fold(x: u8, y: u8)
    requires
        fold_case(x) == fold_case(y),
    ensures
        base_of(x) == base_of(y),
{
}

proof fn lemma_count_same_but_case(s1: Seq<Seq<u8>>, s2: Seq<Seq<u8>>, col: int)
    requires
        same_but_case(s1, s2),
        0 <= col,
        forall|j: int| 0 <= j < s1.len() ==> col < (#[trigger] s1[j]).len(),
    ensures
        canonical_count(s1, col) == canonical_count(s2, col),
    decreases s1.len(),
{
    if s1.len() > 0 {
        let (pre1, pre2) = (s1.drop_last(), s2.drop_last());
        assert forall|j: int| 0 <= j < pre1.len() implies (#[trigger] pre1[j]).len() == pre2[j].len() by {
            assert(pre1[j] == s1[j] && pre2[j] == s2[j]);
        }
        assert forall|j: int, c: int| 0 <= j < pre1.len() && 0 <= c < pre1[j].len() implies fold_case(
            #[trigger] pre1[j][c],
        ) == fold_case(pre2[j][c]) by {
            assert(pre1[j] == s1[j] && pre2[j] == s2[j]);
        }
        assert forall|j: int| 0 <= j < pre1.len() implies col < (#[trigger] pre1[j]).len() by {
            assert(pre1[j] == s1[j]);
        }
        lemma_count_same_but_case(pre1, pre2, col);
        let last = s1.len() - 1;
        assert(s1[last].len() == s2[last].len());
        lemma_base_of_fold(s1[last][col], s2[last][col]);
    }
}

/// Letter case does not matter: two alignments that differ only in the case of canonical
/// bases have the same base presence, the same canonical counts and the same column fates,
/// so the same columns are kept (each output byte still comes from its own input).
pub proof fn lemma_case_insensitive(
    s1: Seq<Seq<u8>>,
    s2: Seq<Seq<u8>>,
    width: nat,
    exclude_invariant: bool,
    core: CoreThreshold,
)
    requires
        same_but_case(s1, s2),
        uniform(s1, width),
    ensures
        forall|col: int, b: Base|
            0 <= col < width ==> #[trigger] base_seen(s1, col, b) == base_seen(s2, col, b),
        forall|col: int|
            0 <= col < width ==> #[trigger] canonical_count(s1, col) == canonical_count(s2, col),
        fates(s1, width, exclude_invariant, core) == fates(s2, width, exclude_invariant, core),
{
    assert forall|col: int, b: Base| 0 <= col < width implies #[trigger] base_seen(s1, col, b)
        == base_seen(s2, col, b) by {
        if base_seen(s1, col, b) {
            let j = choose|j: int| 0 <= j < s1.len() && base_of(#[trigger] s1[j][col]) == b;
            assert(s1[j].len() == width);
            lemma_base_of_fold(s1[j][col], s2[j][col]);
        }
        if base_seen(s2, col, b) {
            let j = choose|j: int| 0 <= j < s2.len() && base_of(#[trigger] s2[j][col]) == b;
            assert(s1[j].len() == width);
            lemma_base_of_fold(s1[j][col], s2[j][col]);
        }
    }
    assert forall|col: int| 0 <= col < width implies #[trigger] canonical_count(s1, col)
        == canonical_count(s2, col) by {
        assert forall|j: int| 0 <= j < s1.len() implies col < (#[trigger] s1[j]).len() by {}
        lemma_count_same_but_case(s1, s2, col);
    }
    assert(fates(s1, width, exclude_invariant, core) =~= fates(
        s2,
        width,
        exclude_invariant,
        core,
    ));
}

proof fn lemma_count_true_mono(weak: Seq<bool>, strong: Seq<bool>)
    requires
        weak.len() == strong.len(),
        forall|i: int| 0 <= i < strong.len() && #[trigger] strong[i] ==> weak[i],
    ensures
        count_true(strong) <= count_true(weak),
    decreases weak.len(),
{
    if weak.len() > 0 {
        lemma_count_true_mono(weak.drop_last(), strong.drop_last());
    }
}

/// A column kept under the higher threshold is kept under the lower one.
proof fn lemma_kept_under_lower(count: nat, total: nat, lo: CoreThreshold, hi: CoreThreshold)
    requires
        lo.wf(),
        hi.wf(),
        lo.le(hi),
        !hi.is_above(count, total),
    ensures
        !lo.is_above(count, total),
{
    let (n1, d1, n2, d2) = (lo.numer() as int, lo.denom() as int, hi.numer() as int, hi.denom() as int);
    let (c, t) = (count as int, total as int);
    assert(!(c * d1 < n1 * t)) by (nonlinear_arith)
        requires
            d1 > 0,
            d2 > 0,
            c >= 0,
            t >= 0,
            n1 >= 0,
            n2 >= 0,
            n1 * d2 <= n2 * d1,
            c * d2 >= n2 * t,
    ;
}

/// Raising the core threshold never increases the number of kept columns.
pub proof fn lemma_monotone(
    seqs: Seq<Seq<u8>>,
    width: nat,
    exclude_invariant: bool,
    lo: CoreThreshold,
    hi: CoreThreshold,
)
    requires
        lo.wf(),
        hi.wf(),
        lo.le(hi),
    ensures
        count_true(kept_mask(fates(seqs, width, exclude_invariant, hi))) <= count_true(
            kept_mask(fates(seqs, width, exclude_invariant, lo)),
        ),
{
    let weak = kept_mask(fates(seqs, width, exclude_invariant, lo));
    let strong = kept_mask(fates(seqs, width, exclude_invariant, hi));
    assert forall|i: int| 0 <= i < strong.len() && #[trigger] strong[i] implies weak[i] by {
        if !(exclude_invariant && !crate::classify::is_variant(seqs, i)) {
            lemma_kept_under_lower(canonical_count(seqs, i), seqs.len(), lo, hi);
        }
    }
    lemma_count_true_mono(weak, strong);
}

/// A run over records of unequal length fails with a length mismatch and gives no output.
pub proof fn lemma_unequal_lengths_fail(
    recs: Seq<RecordView>,
    exclude_invariant: bool,
    core: CoreThreshold,
    j: int,
)
    requires
        0 <= j < recs.len(),
        recs[j].2.len() != recs[0].2.len(),
        recs[0].2.len() <= MAX_BITS,
    ensures
        run_result(recs, exclude_invariant, core) is Err,
        run_result(recs, exclude_invariant, core)->Err_0 is LengthMismatch,
{
    let seqs = seqs_of(recs);
    assert(seqs[j] == recs[j].2);
    assert(seqs[0] == recs[0].2);
}

} // verus!
