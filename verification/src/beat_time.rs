//! Beat positions as exact fixed-point values.
//!
//! A `BeatTime` is a nonnegative position on the beat timeline, stored as a
//! whole number of nanobeats (billionths of a beat). All arithmetic is exact
//! up to that resolution; addition and multiplication saturate at the largest
//! representable value, subtraction saturates at zero.

use vstd::prelude::*;

use crate::errors::MtxtError;
use crate::text::{
    digit_char, lemma_digits_val_prefix_monotone, push_char, push_decimal_u64, spec_all_digits,
    spec_digit_char, spec_digit_val, spec_digits_val, spec_is_digit, spec_nat_digits,
    spec_nat_digits_width, spec_pow10,
};

verus! {

/// A nonnegative position or span on the beat timeline, in nanobeats.
#[derive(Debug, Clone, Copy, PartialEq, Eq, Structural)]
pub struct BeatTime {
    /// The value in nanobeats: `nanos / 1_000_000_000` beats.
    pub nanos: u64,
}

/// Saturating addition on `u64`.
pub open spec fn spec_sat_add(a: u64, b: u64) -> u64 {
    if a + b > u64::MAX {
        u64::MAX
    } else {
        (a + b) as u64
    }
}

/// Saturating subtraction on `u64`.
pub open spec fn spec_sat_sub(a: u64, b: u64) -> u64 {
    if a >= b {
        (a - b) as u64
    } else {
        0
    }
}

/// The nanobeat count of the product of two beat values, truncated to
/// nanobeat resolution and saturated at the largest representable value.
pub open spec fn spec_beat_mul(a: u64, b: u64) -> u64 {
    let exact = (a * b) / (crate::NANOS_PER_BEAT as int);
    if exact > u64::MAX {
        u64::MAX
    } else {
        exact as u64
    }
}

/// The canonical decimal text of the fractional part `f` (in units of
/// `10^-width` beats): trailing zeros are dropped, but one digit always
/// remains.
pub open spec fn spec_frac_text(f: nat, width: nat) -> Seq<char>
    decreases width,
{
    if width <= 1 {
        seq![spec_digit_char(f % 10)]
    } else if f % 10 == 0 {
        spec_frac_text(f / 10, (width - 1) as nat)
    } else {
        spec_nat_digits_width(f, width)
    }
}

/// The canonical decimal text of a beat position: the whole part, a decimal
/// point, and the trimmed fractional digits.
pub open spec fn spec_beat_text(nanos: u64) -> Seq<char> {
    spec_nat_digits(nanos as nat / 1_000_000_000) + seq!['.'] + spec_frac_text(
        nanos as nat % 1_000_000_000,
        9,
    )
}

impl BeatTime {
    /// The zero position.
    pub fn zero() -> (r: BeatTime)
        ensures
            r.nanos == 0,
    {
        BeatTime { nanos: 0 }
    }

    /// A position of `whole` beats plus `frac_nanos` nanobeats.
    pub fn from_parts(whole: u32, frac_nanos: u32) -> (r: BeatTime)
        requires
            frac_nanos < 1_000_000_000,
        ensures
            r.nanos == whole * 1_000_000_000 + frac_nanos,
    {
        BeatTime { nanos: (whole as u64) * 1_000_000_000 + (frac_nanos as u64) }
    }

    /// A position of exactly `nanos` nanobeats.
    pub fn from_nanos(nanos: u64) -> (r: BeatTime)
        ensures
            r.nanos == nanos,
    {
        BeatTime { nanos }
    }

    /// The whole-beat part.
    pub fn whole(&self) -> (r: u64)
        ensures
            r == self.nanos / 1_000_000_000,
    {
        self.nanos / 1_000_000_000
    }

    /// The fractional part, in nanobeats.
    pub fn frac_nanos(&self) -> (r: u64)
        ensures
            r == self.nanos % 1_000_000_000,
    {
        self.nanos % 1_000_000_000
    }

    /// Saturating addition of two beat positions.
    pub fn add_sat(&self, other: &BeatTime) -> (r: BeatTime)
        ensures
            r.nanos == spec_sat_add(self.nanos, other.nanos),
    {
        match self.nanos.checked_add(other.nanos) {
            Some(n) => BeatTime { nanos: n },
            None => BeatTime { nanos: u64::MAX },
        }
    }

    /// Subtraction, saturating at zero.
    pub fn sub_sat(&self, other: &BeatTime) -> (r: BeatTime)
        ensures
            r.nanos == spec_sat_sub(self.nanos, other.nanos),
    {
        if self.nanos >= other.nanos {
            BeatTime { nanos: self.nanos - other.nanos }
        } else {
            BeatTime { nanos: 0 }
        }
    }

    /// Multiplication of two beat values treated as reals, truncated to
    /// nanobeat resolution and saturating at the largest representable value.
    pub fn mul_beats(&self, other: &BeatTime) -> (r: BeatTime)
        ensures
            r.nanos == spec_beat_mul(self.nanos, other.nanos),
    {
        proof {
            assert((self.nanos as int) * (other.nanos as int) <= (u64::MAX as int) * (
            u64::MAX as int)) by (nonlinear_arith)
                requires
                    self.nanos <= u64::MAX,
                    other.nanos <= u64::MAX,
            ;
        }
        let wide: u128 = (self.nanos as u128) * (other.nanos as u128) / 1_000_000_000u128;
        if wide > u64::MAX as u128 {
            BeatTime { nanos: u64::MAX }
        } else {
            BeatTime { nanos: wide as u64 }
        }
    }

    /// Whether this position is strictly before `other`.
    pub fn lt(&self, other: &BeatTime) -> (r: bool)
        ensures
            r == (self.nanos < other.nanos),
    {
        self.nanos < other.nanos
    }

    /// Whether this position is at or before `other`.
    pub fn le(&self, other: &BeatTime) -> (r: bool)
        ensures
            r == (self.nanos <= other.nanos),
    {
        self.nanos <= other.nanos
    }

    /// The canonical decimal text of this position.
    pub fn to_text(&self) -> (s: String)
        ensures
            s@ == spec_beat_text(self.nanos),
    {
        let mut s = String::new();
        push_decimal_u64(&mut s, self.nanos / 1_000_000_000);
        push_char(&mut s, '.');
        let mut f: u64 = self.nanos % 1_000_000_000;
        let mut width: u8 = 9;
        proof {
            assert(spec_pow10(9) == 1_000_000_000) by {
                reveal_with_fuel(spec_pow10, 10);
            }
        }
        while width > 1 && f % 10 == 0
            invariant
                1 <= width <= 9,
                f < spec_pow10(width as nat),
                spec_frac_text(self.nanos as nat % 1_000_000_000, 9) == spec_frac_text(
                    f as nat,
                    width as nat,
                ),
            decreases width,
        {
            proof {
                assert(spec_pow10(width as nat) == 10 * spec_pow10((width - 1) as nat));
                assert(f / 10 < spec_pow10((width - 1) as nat));
            }
            f = f / 10;
            width = width - 1;
        }
        push_frac_digits(&mut s, f, width);
        proof {
            if width == 1 {
                assert(f < 10) by {
                    assert(spec_pow10(1) == 10 * spec_pow10(0));
                }
                assert(spec_frac_text(f as nat, 1) == seq![spec_digit_char(f as nat % 10)]);
                assert(spec_nat_digits_width(f as nat, 1) == spec_nat_digits_width(
                    f as nat / 10,
                    0,
                ).push(spec_digit_char(f as nat % 10)));
                assert(spec_nat_digits_width(f as nat, 1) =~= spec_frac_text(f as nat, 1));
            } else {
                assert(spec_frac_text(f as nat, width as nat) == spec_nat_digits_width(
                    f as nat,
                    width as nat,
                ));
            }
            assert(s@ =~= spec_beat_text(self.nanos));
        }
        s
    }
}

/// Appends the `width`-digit zero-padded rendering of `n` to `s`.
fn push_frac_digits(s: &mut String, n: u64, width: u8)
    ensures
        final(s)@ == old(s)@ + spec_nat_digits_width(n as nat, width as nat),
    decreases width,
{
    if width == 0 {
        proof {
            assert(final(s)@ =~= old(s)@ + spec_nat_digits_width(n as nat, 0));
        }
    } else {
        push_frac_digits(s, n / 10, width - 1);
        push_char(s, digit_char((n % 10) as u8));
        proof {
            assert(final(s)@ =~= old(s)@ + spec_nat_digits_width(n as nat, width as nat));
        }
    }
}

/// Padding a fraction value with `k` trailing zero digits does not change
/// its trimmed text.
proof fn lemma_frac_text_shift(fv: nat, w: nat, k: nat)
    requires
        1 <= w,
        w + k <= 9,
    ensures
        spec_frac_text(fv * spec_pow10(k), w + k) == spec_frac_text(fv, w),
    decreases k,
{
    if k == 0 {
        assert(spec_pow10(0) == 1);
        assert(fv * 1 == fv);
    } else {
        let g = fv * spec_pow10(k);
        assert(spec_pow10(k) == 10 * spec_pow10((k - 1) as nat));
        let h = fv * spec_pow10((k - 1) as nat);
        assert(g == h * 10) by (nonlinear_arith)
            requires
                g == fv * (10 * spec_pow10((k - 1) as nat)),
                h == fv * spec_pow10((k - 1) as nat),
        ;
        assert(g % 10 == 0 && g / 10 == h) by (nonlinear_arith)
            requires
                g == h * 10,
        ;
        assert(w + k > 1);
        assert(spec_frac_text(g, w + k) == spec_frac_text(h, w + (k - 1) as nat));
        lemma_frac_text_shift(fv, w, (k - 1) as nat);
    }
}

/// The trimmed fraction text of a canonical fraction digit string (at most
/// nine digits, no trailing zero unless it is the only digit) is that
/// string itself.
pub proof fn lemma_frac_text_of_digits(f: Seq<char>)
    requires
        spec_all_digits(f),
        1 <= f.len() <= 9,
        f.len() == 1 || f.last() != '0',
    ensures
        spec_frac_text(
            spec_digits_val(f) * spec_pow10((9 - f.len()) as nat),
            9,
        ) == f,
{
    let fv = spec_digits_val(f);
    let w = f.len() as nat;
    lemma_frac_text_shift(fv, w, (9 - w) as nat);
    if w == 1 {
        assert(f.drop_last() =~= Seq::<char>::empty());
        assert(spec_digits_val(Seq::<char>::empty()) == 0);
        assert(fv == spec_digit_val(f.last()));
        assert(spec_is_digit(f.last()));
        assert(fv < 10);
        assert(spec_frac_text(fv, 1) == seq![spec_digit_char(fv % 10)]);
        assert(spec_digit_char(fv % 10) == f.last());
        assert(seq![f.last()] =~= f);
    } else {
        let pre = f.drop_last();
        let dl = spec_digit_val(f.last());
        assert(spec_is_digit(f.last()));
        assert(fv == spec_digits_val(pre) * 10 + dl);
        assert(fv % 10 == dl) by (nonlinear_arith)
            requires
                fv == spec_digits_val(pre) * 10 + dl,
                dl < 10,
        ;
        assert(dl != 0) by {
            if dl == 0 {
                assert(spec_digit_char(0) == '0');
                assert(f.last() == '0');
            }
        }
        assert(spec_frac_text(fv, w) == spec_nat_digits_width(fv, w));
        crate::text::lemma_digits_width_canon(f);
    }
}

/// The position of the first `.` in `s`, or `s.len()` if there is none.
pub open spec fn spec_dot_pos(s: Seq<char>) -> int
    decreases s.len(),
{
    if s.len() == 0 {
        0
    } else if s[0] == '.' {
        0
    } else {
        1 + spec_dot_pos(s.drop_first())
    }
}

/// Whether `s` is a decimal beat literal: one or more digits, optionally
/// followed by a decimal point and one or more digits.
pub open spec fn spec_is_beat_lexeme(s: Seq<char>) -> bool {
    let d = spec_dot_pos(s);
    &&& d >= 1
    &&& spec_all_digits(s.take(d))
    &&& (d < s.len() ==> d + 2 <= s.len() && spec_all_digits(s.skip(d + 1)))
}

/// The nanobeat value denoted by a beat literal. Fractional digits beyond
/// the ninth are ignored.
pub open spec fn spec_beat_lexeme_nanos(s: Seq<char>) -> nat {
    let d = spec_dot_pos(s);
    let whole = spec_digits_val(s.take(d));
    let frac = if d < s.len() {
        let fdigits = s.skip(d + 1);
        let m = if fdigits.len() <= 9 {
            fdigits.len()
        } else {
            9
        };
        spec_digits_val(fdigits.take(m as int)) * spec_pow10((9 - m) as nat)
    } else {
        0
    };
    whole * 1_000_000_000 + frac
}

/// The first dot position is never past the end, never at a digit-free
/// prefix boundary it does not mark, and marks a real dot when interior.
pub proof fn lemma_dot_pos(s: Seq<char>)
    ensures
        0 <= spec_dot_pos(s) <= s.len(),
        spec_dot_pos(s) < s.len() ==> s[spec_dot_pos(s)] == '.',
        forall|i: int| 0 <= i < spec_dot_pos(s) ==> #[trigger] s[i] != '.',
    decreases s.len(),
{
    if s.len() == 0 {
    } else if s[0] == '.' {
    } else {
        lemma_dot_pos(s.drop_first());
        let t = s.drop_first();
        assert forall|i: int| 0 <= i < spec_dot_pos(s) implies #[trigger] s[i] != '.' by {
            if i >= 1 {
                assert(s[i] == t[i - 1]);
            }
        }
    }
}

/// Parses a decimal beat literal. Returns `Ok` exactly on well-formed
/// literals whose whole part fits in 32 bits; the value is exact to
/// nanobeat resolution.
pub fn parse_beat_time(s: &str) -> (r: Result<BeatTime, MtxtError>)
    ensures
        match r {
            Ok(b) => spec_is_beat_lexeme(s@) && spec_digits_val(
                s@.take(spec_dot_pos(s@)),
            ) <= u32::MAX && b.nanos == spec_beat_lexeme_nanos(s@),
            Err(e) => e == MtxtError::BadNumber && (!spec_is_beat_lexeme(s@) || spec_digits_val(
                s@.take(spec_dot_pos(s@)),
            ) > u32::MAX),
        },
{
    let n = s.unicode_len();
    proof {
        lemma_dot_pos(s@);
    }
    let ghost d = spec_dot_pos(s@);
    // find the dot position
    let mut dot: usize = 0;
    while dot < n && s.get_char(dot) != '.'
        invariant
            0 <= dot <= n,
            n == s@.len(),
            forall|j: int| 0 <= j < dot ==> #[trigger] s@[j] != '.',
        decreases n - dot,
    {
        dot = dot + 1;
    }
    proof {
        assert(dot == d) by {
            if dot < d {
                assert(s@[dot as int] == '.');
            }
            if dot > d {
                assert(d < s@.len());
                assert(s@[d] == '.');
            }
        }
    }
    if dot == 0 {
        proof {
            assert(!spec_is_beat_lexeme(s@));
        }
        return Err(MtxtError::BadNumber);
    }
    // whole part
    let mut whole: u64 = 0;
    let mut i: usize = 0;
    while i < dot
        invariant
            0 <= i <= dot <= n,
            n == s@.len(),
            d == dot,
            d == spec_dot_pos(s@),
            spec_all_digits(s@.take(i as int)),
            whole == spec_digits_val(s@.take(i as int)),
            whole <= u32::MAX,
        decreases dot - i,
    {
        let c = s.get_char(i);
        let cv = c as u32;
        if cv < 48 || cv > 57 {
            proof {
                assert(!spec_is_digit(s@[i as int]));
                assert(!spec_all_digits(s@.take(d))) by {
                    assert(s@.take(d)[i as int] == s@[i as int]);
                }
                assert(!spec_is_beat_lexeme(s@));
            }
            return Err(MtxtError::BadNumber);
        }
        let digit = (cv - 48) as u64;
        proof {
            let t = s@.take(i + 1);
            assert(t.drop_last() =~= s@.take(i as int));
            assert(t.last() == s@[i as int]);
            assert(spec_digit_val(s@[i as int]) == digit);
            assert forall|j: int| 0 <= j < t.len() implies spec_is_digit(#[trigger] t[j]) by {
                if j < i {
                    assert(t[j] == s@.take(i as int)[j]);
                }
            }
        }
        let next = whole * 10 + digit;
        if next > u32::MAX as u64 {
            proof {
                let t = s@.take(i + 1);
                assert(spec_digits_val(t) == spec_digits_val(t.drop_last()) * 10 + spec_digit_val(
                    t.last(),
                ));
                assert(spec_digits_val(t) == next);
                lemma_digits_val_prefix_monotone(s@.take(d), i + 1);
                assert(s@.take(d).take(i + 1) =~= s@.take(i + 1));
                assert(spec_digits_val(s@.take(d)) > u32::MAX);
            }
            return Err(MtxtError::BadNumber);
        }
        whole = next;
        i = i + 1;
    }
    proof {
        assert(s@.take(i as int) =~= s@.take(d));
    }
    // fractional part
    let mut frac: u64 = 0;
    if dot < n {
        if dot + 1 >= n {
            proof {
                assert(!spec_is_beat_lexeme(s@));
            }
            return Err(MtxtError::BadNumber);
        }
        let ghost fdigits = s@.skip(d + 1);
        let ghost m: int = if fdigits.len() <= 9 {
            fdigits.len() as int
        } else {
            9
        };
        let mut j: usize = dot + 1;
        let mut count: u8 = 0;
        while j < n
            invariant
                dot + 1 <= j <= n,
                n == s@.len(),
                d == dot,
                d == spec_dot_pos(s@),
                dot + 2 <= n,
                fdigits == s@.skip(d + 1),
                m == if fdigits.len() <= 9 { fdigits.len() as int } else { 9 },
                count as int == if j - dot - 1 <= 9 { j - dot - 1 } else { 9 },
                spec_all_digits(s@.skip(d + 1).take(j - dot - 1)),
                frac == spec_digits_val(fdigits.take(count as int)),
                frac < spec_pow10(count as nat),
            decreases n - j,
        {
            let c = s.get_char(j);
            let cv = c as u32;
            if cv < 48 || cv > 57 {
                proof {
                    assert(!spec_is_digit(s@[j as int]));
                    assert(!spec_all_digits(fdigits)) by {
                        assert(fdigits[j - d - 1] == s@[j as int]);
                    }
                    assert(!spec_is_beat_lexeme(s@));
                }
                return Err(MtxtError::BadNumber);
            }
            proof {
                let t = s@.skip(d + 1).take(j - dot);
                assert forall|k: int| 0 <= k < t.len() implies spec_is_digit(#[trigger] t[k]) by {
                    if k < j - dot - 1 {
                        assert(t[k] == s@.skip(d + 1).take(j - dot - 1)[k]);
                    } else {
                        assert(t[k] == s@[j as int]);
                    }
                }
            }
            if count < 9 {
                let digit = (cv - 48) as u64;
                proof {
                    let t = fdigits.take(count + 1);
                    assert(t.drop_last() =~= fdigits.take(count as int));
                    assert(t.last() == fdigits[count as int]);
                    assert(fdigits[count as int] == s@[j as int]);
                    assert(spec_digit_val(s@[j as int]) == digit);
                    assert(spec_pow10((count + 1) as nat) == 10 * spec_pow10(count as nat));
                    lemma_pow10_le_9(count as nat);
                    assert(frac * 10 + digit < 10 * spec_pow10(count as nat)) by (nonlinear_arith)
                        requires
                            frac < spec_pow10(count as nat),
                            digit < 10,
                    ;
                }
                frac = frac * 10 + digit;
                count = count + 1;
            }
            j = j + 1;
        }
        proof {
            assert(s@.skip(d + 1).take(j - dot - 1) =~= fdigits);
            assert(count as int == m);
        }
        // pad to nine digits
        while count < 9
            invariant
                count <= 9,
                frac < spec_pow10(count as nat),
                frac * spec_pow10((9 - count) as nat) == spec_digits_val(fdigits.take(m))
                    * spec_pow10((9 - m) as nat),
            decreases 9 - count,
        {
            proof {
                let p_small = spec_pow10((9 - count - 1) as nat);
                assert(spec_pow10((9 - count) as nat) == 10 * p_small);
                assert(frac * (10 * p_small) == (frac * 10) * p_small) by (nonlinear_arith);
                assert(spec_pow10((count + 1) as nat) == 10 * spec_pow10(count as nat));
                assert(frac * 10 < spec_pow10(count as nat) * 10) by (nonlinear_arith)
                    requires
                        frac < spec_pow10(count as nat),
                ;
                lemma_pow10_le_9(count as nat);
            }
            frac = frac * 10;
            count = count + 1;
        }
        proof {
            assert(spec_pow10(0) == 1);
            assert(frac * 1 == frac);
        }
    }
    proof {
        assert(spec_pow10(9) == 1_000_000_000) by {
        reveal_with_fuel(spec_pow10, 10);
    }
        assert(whole * 1_000_000_000 + frac <= u32::MAX as int * 1_000_000_000 + 1_000_000_000 - 1)
            by (nonlinear_arith)
            requires
                whole <= u32::MAX,
                frac < 1_000_000_000,
        ;
    }
    Ok(BeatTime { nanos: whole * 1_000_000_000 + frac })
}

/// `10^k` fits in 64 bits for `k <= 9`.
proof fn lemma_pow10_le_9(k: nat)
    requires
        k <= 9,
    ensures
        spec_pow10(k) <= 1_000_000_000,
    decreases k,
{
    assert(spec_pow10(9) == 1_000_000_000) by {
        reveal_with_fuel(spec_pow10, 10);
    }
    if k < 9 {
        lemma_pow10_mono(k, 9);
    }
}

/// `10^a <= 10^b` for `a <= b`.
proof fn lemma_pow10_mono(a: nat, b: nat)
    requires
        a <= b,
    ensures
        spec_pow10(a) <= spec_pow10(b),
        spec_pow10(a) >= 1,
    decreases b,
{
    if a == b {
        lemma_pow10_pos(a);
    } else {
        lemma_pow10_mono(a, (b - 1) as nat);
        assert(spec_pow10(b) == 10 * spec_pow10((b - 1) as nat));
    }
}

/// `10^k >= 1`.
proof fn lemma_pow10_pos(k: nat)
    ensures
        spec_pow10(k) >= 1,
    decreases k,
{
    if k > 0 {
        lemma_pow10_pos((k - 1) as nat);
    }
}

} // verus!
