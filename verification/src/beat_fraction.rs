//! Exact rational beat fractions, written `N/D` in beat expressions.

use vstd::prelude::*;

use crate::beat_time::BeatTime;
use crate::errors::MtxtError;
use crate::text::{
    push_char, push_decimal_u64, spec_all_digits, spec_digit_val, spec_digits_val, spec_is_digit,
    spec_nat_digits,
};

verus! {

/// An exact rational number of beats, `numerator / denominator` with a
/// nonzero denominator.
#[derive(Debug, Clone, Copy, PartialEq, Eq, Structural)]
pub struct BeatFraction {
    pub numerator: u32,
    pub denominator: u32,
}

impl BeatFraction {
    /// Builds a fraction; a zero denominator is rejected.
    pub fn new(numerator: u32, denominator: u32) -> (r: Result<BeatFraction, MtxtError>)
        ensures
            match r {
                Ok(f) => denominator != 0 && f.numerator == numerator && f.denominator
                    == denominator,
                Err(e) => denominator == 0 && e == MtxtError::BadFraction,
            },
    {
        if denominator == 0 {
            Err(MtxtError::BadFraction)
        } else {
            Ok(BeatFraction { numerator, denominator })
        }
    }

    /// The fraction as a beat position, exact to nanobeat resolution
    /// (truncated).
    pub fn as_beat_time(&self) -> (r: BeatTime)
        requires
            self.denominator != 0,
        ensures
            r.nanos == (self.numerator * 1_000_000_000) / (self.denominator as int),
    {
        let wide: u64 = (self.numerator as u64) * 1_000_000_000;
        BeatTime::from_nanos(wide / (self.denominator as u64))
    }

    /// The text form `N/D`.
    pub fn to_text(&self) -> (s: String)
        ensures
            s@ == spec_fraction_text(self.numerator, self.denominator),
    {
        let mut s = String::new();
        push_decimal_u64(&mut s, self.numerator as u64);
        push_char(&mut s, '/');
        push_decimal_u64(&mut s, self.denominator as u64);
        proof {
            assert(s@ =~= spec_fraction_text(self.numerator, self.denominator));
        }
        s
    }
}

/// The text form `N/D` of a fraction.
pub open spec fn spec_fraction_text(numerator: u32, denominator: u32) -> Seq<char> {
    spec_nat_digits(numerator as nat) + seq!['/'] + spec_nat_digits(denominator as nat)
}

/// The position of the first `/` in `s`, or `s.len()` if there is none.
pub open spec fn spec_slash_pos(s: Seq<char>) -> int
    decreases s.len(),
{
    if s.len() == 0 {
        0
    } else if s[0] == '/' {
        0
    } else {
        1 + spec_slash_pos(s.drop_first())
    }
}

/// Whether `s` contains a `/`.
pub open spec fn spec_has_slash(s: Seq<char>) -> bool {
    spec_slash_pos(s) < s.len()
}

/// Whether `s` is a fraction literal `N/D`: digits, one slash, digits, with
/// both digit groups nonempty and fitting in 32 bits, and `D` nonzero.
pub open spec fn spec_is_fraction_lexeme(s: Seq<char>) -> bool {
    let p = spec_slash_pos(s);
    &&& 1 <= p
    &&& p + 2 <= s.len()
    &&& spec_all_digits(s.take(p))
    &&& spec_all_digits(s.skip(p + 1))
    &&& spec_digits_val(s.take(p)) <= u32::MAX
    &&& spec_digits_val(s.skip(p + 1)) <= u32::MAX
    &&& spec_digits_val(s.skip(p + 1)) != 0
}

/// The numerator of a fraction literal.
pub open spec fn spec_fraction_num(s: Seq<char>) -> nat {
    spec_digits_val(s.take(spec_slash_pos(s)))
}

/// The denominator of a fraction literal.
pub open spec fn spec_fraction_den(s: Seq<char>) -> nat {
    spec_digits_val(s.skip(spec_slash_pos(s) + 1))
}

/// The first slash position is in range, marks a slash when interior, and
/// nothing before it is a slash.
pub proof fn lemma_slash_pos(s: Seq<char>)
    ensures
        0 <= spec_slash_pos(s) <= s.len(),
        spec_slash_pos(s) < s.len() ==> s[spec_slash_pos(s)] == '/',
        forall|i: int| 0 <= i < spec_slash_pos(s) ==> #[trigger] s[i] != '/',
    decreases s.len(),
{
    if s.len() == 0 {
    } else if s[0] == '/' {
    } else {
        lemma_slash_pos(s.drop_first());
        let t = s.drop_first();
        assert forall|i: int| 0 <= i < spec_slash_pos(s) implies #[trigger] s[i] != '/' by {
            if i >= 1 {
                assert(s[i] == t[i - 1]);
            }
        }
    }
}

/// Parses a fraction literal `N/D`. Returns `Ok` exactly on well-formed
/// literals; everything else is `BadFraction`. A second slash makes the
/// denominator digits ill-formed and is therefore rejected.
pub fn parse_beat_fraction(s: &str) -> (r: Result<BeatFraction, MtxtError>)
    ensures
        match r {
            Ok(f) => spec_is_fraction_lexeme(s@) && f.numerator == spec_fraction_num(s@)
                && f.denominator == spec_fraction_den(s@),
            Err(e) => e == MtxtError::BadFraction && !spec_is_fraction_lexeme(s@),
        },
{
    let n = s.unicode_len();
    proof {
        lemma_slash_pos(s@);
    }
    let ghost p = spec_slash_pos(s@);
    let mut slash: usize = 0;
    while slash < n && s.get_char(slash) != '/'
        invariant
            0 <= slash <= n,
            n == s@.len(),
            forall|j: int| 0 <= j < slash ==> #[trigger] s@[j] != '/',
        decreases n - slash,
    {
        slash = slash + 1;
    }
    proof {
        assert(slash == p) by {
            if slash < p {
                assert(s@[slash as int] == '/');
            }
            if slash > p {
                assert(p < s@.len());
                assert(s@[p] == '/');
            }
        }
    }
    if slash == 0 || slash >= n || slash + 1 >= n {
        return Err(MtxtError::BadFraction);
    }
    let numerator = match parse_u32_digits(s, 0, slash) {
        Some(v) => v,
        None => {
            proof {
                assert(s@.subrange(0, p) =~= s@.take(p));
            }
            return Err(MtxtError::BadFraction);
        },
    };
    let denominator = match parse_u32_digits(s, slash + 1, n) {
        Some(v) => v,
        None => {
            proof {
                assert(s@.subrange(p + 1, n as int) =~= s@.skip(p + 1));
            }
            return Err(MtxtError::BadFraction);
        },
    };
    proof {
        assert(s@.subrange(0, p) =~= s@.take(p));
        assert(s@.subrange(p + 1, n as int) =~= s@.skip(p + 1));
    }
    if denominator == 0 {
        return Err(MtxtError::BadFraction);
    }
    Ok(BeatFraction { numerator, denominator })
}

/// Reads the digit run `s[from..to]` as a 32-bit number; `None` if the run
/// holds a non-digit or overflows.
fn parse_u32_digits(s: &str, from: usize, to: usize) -> (r: Option<u32>)
    requires
        from <= to <= s@.len(),
    ensures
        match r {
            Some(v) => spec_all_digits(s@.subrange(from as int, to as int)) && v
                == spec_digits_val(s@.subrange(from as int, to as int)),
            None => !spec_all_digits(s@.subrange(from as int, to as int)) || spec_digits_val(
                s@.subrange(from as int, to as int),
            ) > u32::MAX,
        },
{
    let ghost part = s@.subrange(from as int, to as int);
    let mut v: u64 = 0;
    let mut i: usize = from;
    while i < to
        invariant
            from <= i <= to <= s@.len(),
            part == s@.subrange(from as int, to as int),
            spec_all_digits(part.take(i - from)),
            v == spec_digits_val(part.take(i - from)),
            v <= u32::MAX,
        decreases to - i,
    {
        let c = s.get_char(i);
        let cv = c as u32;
        proof {
            assert(part[i - from] == s@[i as int]);
        }
        if cv < 48 || cv > 57 {
            proof {
                assert(!spec_is_digit(part[i - from]));
            }
            return None;
        }
        let digit = (cv - 48) as u64;
        proof {
            let t = part.take(i - from + 1);
            assert(t.drop_last() =~= part.take(i - from));
            assert(t.last() == part[i - from]);
            assert(spec_digit_val(part[i - from]) == digit);
            assert(spec_digits_val(t) == v * 10 + digit);
        }
        let next = v * 10 + digit;
        if next > u32::MAX as u64 {
            proof {
                crate::text::lemma_digits_val_prefix_monotone(part, i - from + 1);
            }
            return None;
        }
        v = next;
        i = i + 1;
    }
    proof {
        assert(part.take(to - from) =~= part);
    }
    Some(v as u32)
}

} // verus!
