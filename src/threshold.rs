//! The core threshold: the least fraction of sequences that must carry a canonical base
//! in a column for the column to stay, held as an exact fraction.
use crate::error::FilterError;
use vstd::prelude::*;

verus! {

/// Most digits accepted on either side of the decimal point of a threshold (so that each
/// side, and `10^k`, fit a `u64`).
pub const MAX_DIGITS: usize = 18;

/// An ASCII decimal digit.
pub open spec fn is_digit(b: u8) -> bool {
    48 <= b <= 57
}

pub open spec fn all_digits(s: Seq<u8>) -> bool {
    forall|i: int| 0 <= i < s.len() ==> is_digit(#[trigger] s[i])
}

/// The number that a string of decimal digits denotes.
pub open spec fn digits_value(s: Seq<u8>) -> nat
    decreases s.len(),
{
    if s.len() == 0 {
        0
    } else {
        digits_value(s.drop_last()) * 10 + (s.last() - 48) as nat
    }
}

pub open spec fn pow10(k: nat) -> nat
    decreases k,
{
    if k == 0 {
        1
    } else {
        10 * pow10((k - 1) as nat)
    }
}

/// The position of the first `.` at or after `i`, or the length when there is none.
pub open spec fn dot_from(s: Seq<u8>, i: int) -> int
    decreases s.len() - i,
{
    if i >= s.len() {
        s.len() as int
    } else if s[i] == 46 {
        i
    } else {
        dot_from(s, i + 1)
    }
}

/// The digits before the decimal point.
pub open spec fn whole_digits(s: Seq<u8>) -> Seq<u8> {
    s.take(dot_from(s, 0))
}

/// The digits after the decimal point (none when there is no point).
pub open spec fn fraction_digits(s: Seq<u8>) -> Seq<u8> {
    let d = dot_from(s, 0);
    if d < s.len() {
        s.skip(d + 1)
    } else {
        Seq::empty()
    }
}

/// `s` is a plain decimal number: digits, optionally a point and more digits, at least one
/// digit in all, and at most `MAX_DIGITS` on either side of the point.
pub open spec fn is_decimal(s: Seq<u8>) -> bool {
    &&& all_digits(whole_digits(s))
    &&& all_digits(fraction_digits(s))
    &&& whole_digits(s).len() + fraction_digits(s).len() > 0
    &&& whole_digits(s).len() <= MAX_DIGITS
    &&& fraction_digits(s).len() <= MAX_DIGITS
}

/// The numerator of the decimal `s` over `10^k`, `k` the number of digits after the point.
pub open spec fn decimal_numer(s: Seq<u8>) -> nat {
    digits_value(whole_digits(s)) * pow10(fraction_digits(s).len()) + digits_value(
        fraction_digits(s),
    )
}

pub open spec fn decimal_denom(s: Seq<u8>) -> nat {
    pow10(fraction_digits(s).len())
}

proof fn lemma_dot_from_bounds(s: Seq<u8>, i: int)
    requires
        0 <= i <= s.len(),
    ensures
        i <= dot_from(s, i) <= s.len(),
        dot_from(s, i) < s.len() ==> s[dot_from(s, i)] == 46,
        forall|k: int| i <= k < dot_from(s, i) ==> s[k] != 46,
    decreases s.len() - i,
{
    if i < s.len() && s[i] != 46 {
        lemma_dot_from_bounds(s, i + 1);
    }
}

proof fn lemma_pow10_positive(k: nat)
    ensures
        pow10(k) >= 1,
    decreases k,
{
    if k > 0 {
        lemma_pow10_positive((k - 1) as nat);
    }
}

proof fn lemma_digits_below_pow10(s: Seq<u8>)
    requires
        all_digits(s),
    ensures
        digits_value(s) < pow10(s.len()),
    decreases s.len(),
{
    if s.len() > 0 {
        let p = s.drop_last();
        assert(all_digits(p)) by {
            assert forall|i: int| 0 <= i < p.len() implies is_digit(#[trigger] p[i]) by {
                assert(p[i] == s[i]);
            }
        }
        lemma_digits_below_pow10(p);
        assert(is_digit(s[s.len() - 1]));
        assert(digits_value(p) * 10 + 9 < pow10(p.len()) * 10) by (nonlinear_arith)
            requires
                digits_value(p) < pow10(p.len()),
        ;
    }
}

/// Reads the digits `s[from..to]` as a number that fits a `u64`; `None` on a non-digit.
fn read_digits(s: &[u8], from: usize, to: usize) -> (r: Option<u64>)
    requires
        from <= to <= s@.len(),
        to - from <= MAX_DIGITS,
    ensures
        r is Some <==> all_digits(s@.subrange(from as int, to as int)),
        r is Some ==> r->Some_0 == digits_value(s@.subrange(from as int, to as int)),
{
    let mut v: u64 = 0;
    let mut i = from;
    while i < to
        invariant
            from <= i <= to <= s@.len(),
            to - from <= MAX_DIGITS,
            all_digits(s@.subrange(from as int, i as int)),
            v == digits_value(s@.subrange(from as int, i as int)),
            v < pow10((i - from) as nat),
            pow10((i - from) as nat) <= 1_000_000_000_000_000_000,
        decreases to - i,
    {
        let ghost prev = s@.subrange(from as int, i as int);
        let ghost next = s@.subrange(from as int, i + 1);
        assert(next.drop_last() =~= prev);
        let b = s[i];
        if b < 48 || b > 57 {
            assert(next[next.len() - 1] == b);
            return None;
        }
        assert(v * 10 + 9 < pow10((i - from) as nat) * 10) by (nonlinear_arith)
            requires
                v < pow10((i - from) as nat),
        ;
        assert(pow10((i + 1 - from) as nat) == 10 * pow10((i - from) as nat));
        assert(pow10((i + 1 - from) as nat) <= 1_000_000_000_000_000_000) by {
            lemma_pow10_at_most((i + 1 - from) as nat);
        }
        v = v * 10 + (b - 48) as u64;
        i = i + 1;
        assert forall|k: int| 0 <= k < next.len() implies is_digit(#[trigger] next[k]) by {
            if k < prev.len() {
                assert(next[k] == prev[k]);
            }
        }
    }
    Some(v)
}

proof fn lemma_pow10_at_most(k: nat)
    requires
        k <= 18,
    ensures
        pow10(k) <= pow10(18),
        pow10(18) == 1_000_000_000_000_000_000,
    decreases 18 - k,
{
    reveal_with_fuel(pow10, 19);
    if k < 18 {
        lemma_pow10_at_most(k + 1);
    }
}

/// A threshold `numer / denom` with `0 < denom` and `numer <= denom`, so within `[0, 1]`.
pub struct CoreThreshold {
    num: u64,
    den: u64,
}

impl CoreThreshold {
    pub closed spec fn numer(self) -> nat {
        self.num as nat
    }

    pub closed spec fn denom(self) -> nat {
        self.den as nat
    }

    /// The fraction lies in `[0, 1]` and has a positive denominator.
    pub open spec fn wf(self) -> bool {
        0 < self.denom() && self.numer() <= self.denom()
    }

    /// `count / total < numer / denom`: a column with `count` canonical bases among `total`
    /// sequences is not core.
    pub open spec fn is_above(self, count: nat, total: nat) -> bool {
        count * self.denom() < self.numer() * total
    }

    /// `self <= other` as rational numbers.
    pub open spec fn le(self, other: CoreThreshold) -> bool {
        self.numer() * other.denom() <= other.numer() * self.denom()
    }

    /// The threshold `num / den`; fails unless `0 < den` and `num <= den`.
    pub fn new(num: u64, den: u64) -> (r: Result<CoreThreshold, FilterError>)
        ensures
            (0 < den && num <= den) <==> r is Ok,
            r is Ok ==> r->Ok_0.numer() == num && r->Ok_0.denom() == den && r->Ok_0.wf(),
            r is Err ==> r->Err_0 == FilterError::InvalidThreshold,
    {
        if 0 < den && num <= den {
            Ok(CoreThreshold { num, den })
        } else {
            Err(FilterError::InvalidThreshold)
        }
    }

    /// The threshold 0, under which no column is dropped for coverage.
    pub fn zero() -> (r: CoreThreshold)
        ensures
            r.numer() == 0,
            r.denom() == 1,
            r.wf(),
    {
        CoreThreshold { num: 0, den: 1 }
    }

    /// Whether `count / total` falls below the threshold.
    pub fn exceeds(&self, count: usize, total: usize) -> (r: bool)
        ensures
            r == self.is_above(count as nat, total as nat),
    {
        proof {
            let (c, d, n, t) = (count as u128 as int, self.den as u128 as int, self.num as u128 as int, total as u128 as int);
            assert(0 <= c * d <= 0xffff_ffff_ffff_ffff * 0xffff_ffff_ffff_ffff) by (nonlinear_arith)
                requires 0 <= c <= 0xffff_ffff_ffff_ffff, 0 <= d <= 0xffff_ffff_ffff_ffff;
            assert(0 <= n * t <= 0xffff_ffff_ffff_ffff * 0xffff_ffff_ffff_ffff) by (nonlinear_arith)
                requires 0 <= n <= 0xffff_ffff_ffff_ffff, 0 <= t <= 0xffff_ffff_ffff_ffff;
        }
        let lhs: u128 = count as u128 * self.den as u128;
        let rhs: u128 = self.num as u128 * total as u128;
        proof {
            assert(lhs == count as nat * self.denom());
            assert(rhs == self.numer() * total as nat);
        }
        lhs < rhs
    }
}

/// `10^k`.
fn pow10_exec(k: usize) -> (r: u64)
    requires
        k <= MAX_DIGITS,
    ensures
        r == pow10(k as nat),
{
    let mut r: u64 = 1;
    let mut j: usize = 0;
    while j < k
        invariant
            j <= k <= MAX_DIGITS,
            r == pow10(j as nat),
        decreases k - j,
    {
        proof {
            lemma_pow10_at_most((j + 1) as nat);
        }
        r = r * 10;
        j = j + 1;
    }
    r
}

/// Reads the core threshold argument: a plain decimal number between 0 and 1 inclusive,
/// such as `0`, `0.7`, `.25` or `1.0`, held exactly as digits over a power of ten. Anything
/// else fails with `InvalidThreshold`.
pub fn check_arguments(text: &[u8]) -> (r: Result<CoreThreshold, FilterError>)
    ensures
        r is Ok <==> is_decimal(text@) && decimal_numer(text@) <= decimal_denom(text@),
        r is Ok ==> r->Ok_0.wf() && r->Ok_0.numer() == decimal_numer(text@) && r->Ok_0.denom()
            == decimal_denom(text@),
        r is Err ==> r->Err_0 == FilterError::InvalidThreshold,
{
    let ghost s = text@;
    let n = text.len();
    let mut d: usize = 0;
    proof {
        lemma_dot_from_bounds(s, 0);
    }
    while d < n && text[d] != 46
        invariant
            d <= n == s.len(),
            s == text@,
            d <= dot_from(s, 0),
            dot_from(s, d as int) == dot_from(s, 0),
        decreases n - d,
    {
        proof {
            lemma_dot_from_bounds(s, d + 1);
        }
        d = d + 1;
    }
    proof {
        lemma_dot_from_bounds(s, 0);
        assert(d as int == dot_from(s, 0));
        assert(whole_digits(s) =~= s.subrange(0, d as int));
    }
    let frac_from = if d < n { d + 1 } else { n };
    proof {
        assert(fraction_digits(s) =~= s.subrange(frac_from as int, n as int));
    }
    if d > MAX_DIGITS || n - frac_from > MAX_DIGITS || d + (n - frac_from) == 0 {
        return Err(FilterError::InvalidThreshold);
    }
    let whole = match read_digits(text, 0, d) {
        Some(v) => v,
        None => return Err(FilterError::InvalidThreshold),
    };
    let frac = match read_digits(text, frac_from, n) {
        Some(v) => v,
        None => return Err(FilterError::InvalidThreshold),
    };
    let den = pow10_exec(n - frac_from);
    proof {
        let k = fraction_digits(s).len();
        assert(whole == digits_value(whole_digits(s)));
        assert(frac == digits_value(fraction_digits(s)));
        assert(k == n - frac_from);
        assert(den == pow10(k));
        lemma_digits_below_pow10(fraction_digits(s));
        assert(decimal_numer(s) == whole * pow10(k) + frac);
        let (w, p) = (whole as int, pow10(k) as int);
        if whole == 0 {
            assert(w * p == 0) by (nonlinear_arith)
                requires
                    w == 0,
            ;
        }
        if whole == 1 {
            assert(w * p == p) by (nonlinear_arith)
                requires
                    w == 1,
            ;
        }
        if whole >= 2 {
            assert(whole * pow10(k) >= 2 * pow10(k)) by (nonlinear_arith)
                requires
                    whole >= 2,
            ;
        }
    }
    proof {
        lemma_pow10_positive(fraction_digits(s).len());
    }
    if whole == 0 {
        Ok(CoreThreshold { num: frac, den })
    } else if whole == 1 && frac == 0 {
        Ok(CoreThreshold { num: den, den })
    } else {
        Err(FilterError::InvalidThreshold)
    }
}

} // verus!
