//! The column classifier: decides per column whether it is kept, dropped as invariant or
//! dropped as non-core, and counts each outcome.
use crate::bases::{flags_set, has_variation, Base};
use crate::bits::MAX_BITS;
use crate::bits::{bits_of, ColumnBits};
use crate::scan::{base_seen, canonical_count, ColumnStats};
use crate::threshold::CoreThreshold;
use vstd::prelude::*;

verus! {

/// What becomes of one column.
#[derive(Clone, Copy, Debug, PartialEq, Eq, Structural)]
pub enum ColumnFate {
    /// The column stays in the output.
    Kept,
    /// Dropped: too few sequences carry a canonical base there.
    NonCore,
    /// Dropped: at most one distinct canonical base occurs there; the base that does, or
    /// `Base::Other` when none does.
    Invariant(Base),
}

/// More than one distinct canonical base occurs at `col`.
pub open spec fn is_variant(seqs: Seq<Seq<u8>>, col: int) -> bool {
    flags_set(
        base_seen(seqs, col, Base::A),
        base_seen(seqs, col, Base::C),
        base_seen(seqs, col, Base::G),
        base_seen(seqs, col, Base::T),
    ) > 1
}

/// The first of A, C, G, T that occurs at `col`, or `Base::Other` when none does.
pub open spec fn first_seen(seqs: Seq<Seq<u8>>, col: int) -> Base {
    if base_seen(seqs, col, Base::A) {
        Base::A
    } else if base_seen(seqs, col, Base::C) {
        Base::C
    } else if base_seen(seqs, col, Base::G) {
        Base::G
    } else if base_seen(seqs, col, Base::T) {
        Base::T
    } else {
        Base::Other
    }
}

/// The fate of column `col`: the invariance test comes first, then the core test.
pub open spec fn column_fate(
    seqs: Seq<Seq<u8>>,
    col: int,
    exclude_invariant: bool,
    core: CoreThreshold,
) -> ColumnFate {
    if exclude_invariant && !is_variant(seqs, col) {
        ColumnFate::Invariant(first_seen(seqs, col))
    } else if core.is_above(canonical_count(seqs, col), seqs.len()) {
        ColumnFate::NonCore
    } else {
        ColumnFate::Kept
    }
}

/// The fate of every column, in order.
pub open spec fn fates(
    seqs: Seq<Seq<u8>>,
    width: nat,
    exclude_invariant: bool,
    core: CoreThreshold,
) -> Seq<ColumnFate> {
    Seq::new(width, |col: int| column_fate(seqs, col, exclude_invariant, core))
}

/// The keep mask: true where a column stays.
pub open spec fn kept_mask(fs: Seq<ColumnFate>) -> Seq<bool> {
    fs.map_values(|f: ColumnFate| f == ColumnFate::Kept)
}

/// How many times `f` occurs in `fs`.
pub open spec fn occurrences(fs: Seq<ColumnFate>, f: ColumnFate) -> nat
    decreases fs.len(),
{
    if fs.len() == 0 {
        0
    } else {
        occurrences(fs.drop_last(), f) + if fs.last() == f {
            1nat
        } else {
            0nat
        }
    }
}

/// The number of true bits.
pub open spec fn count_true(bs: Seq<bool>) -> nat
    decreases bs.len(),
{
    if bs.len() == 0 {
        0
    } else {
        count_true(bs.drop_last()) + if bs.last() {
            1nat
        } else {
            0nat
        }
    }
}

pub proof fn lemma_occurrences_push(fs: Seq<ColumnFate>, x: ColumnFate, f: ColumnFate)
    ensures
        occurrences(fs.push(x), f) == occurrences(fs, f) + if x == f {
            1nat
        } else {
            0nat
        },
{
    assert(fs.push(x).drop_last() =~= fs);
}

pub proof fn lemma_occurrences_bound(fs: Seq<ColumnFate>, f: ColumnFate)
    ensures
        occurrences(fs, f) <= fs.len(),
    decreases fs.len(),
{
    if fs.len() > 0 {
        lemma_occurrences_bound(fs.drop_last(), f);
    }
}

/// The kept columns number as many as the true bits of the keep mask.
pub proof fn lemma_kept_count(fs: Seq<ColumnFate>)
    ensures
        count_true(kept_mask(fs)) == occurrences(fs, ColumnFate::Kept),
        kept_mask(fs).len() == fs.len(),
    decreases fs.len(),
{
    if fs.len() > 0 {
        assert(kept_mask(fs).drop_last() =~= kept_mask(fs.drop_last()));
        lemma_kept_count(fs.drop_last());
    }
}

/// The number of columns of each fate.
#[derive(Clone, Copy, Debug, PartialEq, Eq, Structural)]
pub struct ColumnCounts {
    pub kept: usize,
    pub non_core: usize,
    pub invariant_a: usize,
    pub invariant_c: usize,
    pub invariant_g: usize,
    pub invariant_t: usize,
    pub invariant_other: usize,
}

impl ColumnCounts {
    /// The counts are those of the fates `fs`.
    pub open spec fn counts_of(self, fs: Seq<ColumnFate>) -> bool {
        &&& self.kept == occurrences(fs, ColumnFate::Kept)
        &&& self.non_core == occurrences(fs, ColumnFate::NonCore)
        &&& self.invariant_a == occurrences(fs, ColumnFate::Invariant(Base::A))
        &&& self.invariant_c == occurrences(fs, ColumnFate::Invariant(Base::C))
        &&& self.invariant_g == occurrences(fs, ColumnFate::Invariant(Base::G))
        &&& self.invariant_t == occurrences(fs, ColumnFate::Invariant(Base::T))
        &&& self.invariant_other == occurrences(fs, ColumnFate::Invariant(Base::Other))
    }

    pub open spec fn invariant_sum(self) -> int {
        self.invariant_a + self.invariant_c + self.invariant_g + self.invariant_t
            + self.invariant_other
    }
}

/// Every column has exactly one fate, so the seven counts add up to the number of columns.
pub proof fn lemma_fates_partition(fs: Seq<ColumnFate>)
    ensures
        occurrences(fs, ColumnFate::Kept) + occurrences(fs, ColumnFate::NonCore) + occurrences(
            fs,
            ColumnFate::Invariant(Base::A),
        ) + occurrences(fs, ColumnFate::Invariant(Base::C)) + occurrences(
            fs,
            ColumnFate::Invariant(Base::G),
        ) + occurrences(fs, ColumnFate::Invariant(Base::T)) + occurrences(
            fs,
            ColumnFate::Invariant(Base::Other),
        ) == fs.len(),
    decreases fs.len(),
{
    if fs.len() > 0 {
        let prev = fs.drop_last();
        lemma_fates_partition(prev);
        assert(prev.push(fs.last()) =~= fs);
        lemma_occurrences_push_all(prev, fs.last());
    }
}

/// The outcome of classification: the keep mask and the count of each fate.
pub struct ColumnFilter {
    keep: ColumnBits,
    counts: ColumnCounts,
}

impl ColumnFilter {
    /// The keep mask, one bit per column.
    pub closed spec fn mask(self) -> Seq<bool> {
        bits_of(self.keep)
    }

    /// The count of each fate.
    pub closed spec fn tallies(self) -> ColumnCounts {
        self.counts
    }

    /// Each column is counted once, and the kept columns are the true bits of the mask.
    pub open spec fn wf(self) -> bool {
        &&& self.mask().len() <= MAX_BITS
        &&& self.tallies().kept + self.tallies().non_core + self.tallies().invariant_sum()
            == self.mask().len()
        &&& self.tallies().kept == count_true(self.mask())
    }

    /// The keep mask.
    pub fn keep(&self) -> (r: &ColumnBits)
        ensures
            bits_of(*r) == self.mask(),
    {
        &self.keep
    }

    /// The count of each fate.
    pub fn counts(&self) -> (r: ColumnCounts)
        ensures
            r == self.tallies(),
    {
        self.counts
    }

    /// The number of kept columns: the length of every projected sequence.
    pub fn output_width(&self) -> (r: usize)
        ensures
            r == self.tallies().kept,
    {
        self.counts.kept
    }

    /// The number of columns dropped as invariant.
    pub fn invariant_total(&self) -> (r: usize)
        requires
            self.wf(),
        ensures
            r == self.tallies().invariant_sum(),
    {
        self.counts.invariant_a + self.counts.invariant_c + self.counts.invariant_g
            + self.counts.invariant_t + self.counts.invariant_other
    }

    /// The number of columns dropped for either reason.
    pub fn removed_total(&self) -> (r: usize)
        requires
            self.wf(),
        ensures
            r == self.tallies().non_core + self.tallies().invariant_sum(),
    {
        self.counts.non_core + self.invariant_total()
    }
}

pub proof fn lemma_occurrences_push_all(fs: Seq<ColumnFate>, x: ColumnFate)
    ensures
        forall|f: ColumnFate|
            #[trigger] occurrences(fs.push(x), f) == occurrences(fs, f) + if x == f {
                1nat
            } else {
                0nat
            },
{
    assert forall|f: ColumnFate|
        #[trigger] occurrences(fs.push(x), f) == occurrences(fs, f) + if x == f {
            1nat
        } else {
            0nat
        } by {
        lemma_occurrences_push(fs, x, f);
    }
}

/// The fate of column `col`.
pub fn fate_of_column(stats: &ColumnStats, col: usize, exclude_invariant: bool, core: &CoreThreshold) -> (r: ColumnFate)
    requires
        stats.wf(),
        col < stats.columns(),
    ensures
        r == column_fate(stats.sequences(), col as int, exclude_invariant, *core),
{
    let a = stats.present(col, Base::A);
    let c = stats.present(col, Base::C);
    let g = stats.present(col, Base::G);
    let t = stats.present(col, Base::T);
    if exclude_invariant && !has_variation(a, c, g, t) {
        let first = if a {
            Base::A
        } else if c {
            Base::C
        } else if g {
            Base::G
        } else if t {
            Base::T
        } else {
            Base::Other
        };
        ColumnFate::Invariant(first)
    } else if core.exceeds(stats.canonical(col), stats.sequence_count()) {
        ColumnFate::NonCore
    } else {
        ColumnFate::Kept
    }
}

fn tally(counts: &mut ColumnCounts, fate: ColumnFate, Ghost(prev): Ghost<Seq<ColumnFate>>)
    requires
        old(counts).counts_of(prev),
        prev.len() < usize::MAX,
    ensures
        final(counts).counts_of(prev.push(fate)),
{
    proof {
        lemma_occurrences_push_all(prev, fate);
        lemma_occurrences_bound(prev, ColumnFate::Kept);
        lemma_occurrences_bound(prev, ColumnFate::NonCore);
        lemma_occurrences_bound(prev, ColumnFate::Invariant(Base::A));
        lemma_occurrences_bound(prev, ColumnFate::Invariant(Base::C));
        lemma_occurrences_bound(prev, ColumnFate::Invariant(Base::G));
        lemma_occurrences_bound(prev, ColumnFate::Invariant(Base::T));
        lemma_occurrences_bound(prev, ColumnFate::Invariant(Base::Other));
    }
    match fate {
        ColumnFate::Kept => counts.kept = counts.kept + 1,
        ColumnFate::NonCore => counts.non_core = counts.non_core + 1,
        ColumnFate::Invariant(Base::A) => counts.invariant_a = counts.invariant_a + 1,
        ColumnFate::Invariant(Base::C) => counts.invariant_c = counts.invariant_c + 1,
        ColumnFate::Invariant(Base::G) => counts.invariant_g = counts.invariant_g + 1,
        ColumnFate::Invariant(Base::T) => counts.invariant_t = counts.invariant_t + 1,
        ColumnFate::Invariant(Base::Other) => counts.invariant_other = counts.invariant_other + 1,
    }
}

/// Classifies every column: with `exclude_invariant`, a column where at most one distinct
/// canonical base occurs is dropped as invariant; otherwise a column whose fraction of
/// canonical bases is below `core` is dropped as non-core; every other column is kept.
pub fn classify_columns(stats: &ColumnStats, exclude_invariant: bool, core: &CoreThreshold) -> (r:
    ColumnFilter)
    requires
        stats.wf(),
    ensures
        r.wf(),
        r.mask() == kept_mask(fates(stats.sequences(), stats.columns(), exclude_invariant, *core)),
        r.tallies().counts_of(fates(stats.sequences(), stats.columns(), exclude_invariant, *core)),
{
    let ghost seqs = stats.sequences();
    let ghost fs = fates(seqs, stats.columns(), exclude_invariant, *core);
    let width = stats.width();
    let n = stats.sequence_count();
    let mut keep = ColumnBits::repeat(true, width);
    let mut counts = ColumnCounts {
        kept: 0,
        non_core: 0,
        invariant_a: 0,
        invariant_c: 0,
        invariant_g: 0,
        invariant_t: 0,
        invariant_other: 0,
    };
    proof {
        assert(fs.take(0) =~= Seq::<ColumnFate>::empty());
    }
    for i in 0..width
        invariant
            stats.wf(),
            seqs == stats.sequences(),
            width == stats.columns(),
            n == seqs.len(),
            fs == fates(seqs, stats.columns(), exclude_invariant, *core),
            bits_of(keep).len() == width,
            forall|col: int|
                0 <= col < width ==> #[trigger] bits_of(keep)[col] == if col < i {
                    fs[col] == ColumnFate::Kept
                } else {
                    true
                },
            counts.counts_of(fs.take(i as int)),
    {
        let fate = fate_of_column(stats, i, exclude_invariant, core);
        proof {
            assert(fs.take(i + 1) =~= fs.take(i as int).push(fate));
        }
        tally(&mut counts, fate, Ghost(fs.take(i as int)));
        if fate != ColumnFate::Kept {
            keep.set(i, false);
        }
    }
    proof {
        assert(fs.take(width as int) =~= fs);
        assert(bits_of(keep) =~= kept_mask(fs));
        lemma_fates_partition(fs);
        lemma_kept_count(fs);
    }
    ColumnFilter { keep, counts }
}

} // verus!
