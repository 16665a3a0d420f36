//! Shared mappings: MIDI controller numbers to and from controller names,
//! key signatures to text, and the time-signature denominator exponent.

use vstd::prelude::*;

use crate::errors::MtxtError;
use crate::ratio::{spec_clamp, spec_round_div, Ratio};
use crate::text::{
    lemma_nat_digits_val, push_decimal_u64, spec_all_digits, spec_digits_val, spec_nat_digits,
    str_eq,
};

verus! {

/// The textual name of a MIDI controller number: a well-known name where
/// one exists, else `cc<N>`.
pub open spec fn spec_cc_name(cc: u8) -> Seq<char> {
    if cc == 0 {
        "bank"@
    } else if cc == 1 {
        "modulation"@
    } else if cc == 2 {
        "breath"@
    } else if cc == 4 {
        "foot"@
    } else if cc == 5 {
        "portamentotime"@
    } else if cc == 7 {
        "volume"@
    } else if cc == 8 {
        "balance"@
    } else if cc == 10 {
        "pan"@
    } else if cc == 11 {
        "expression"@
    } else if cc == 64 {
        "sustain"@
    } else if cc == 65 {
        "portamento"@
    } else if cc == 66 {
        "sostenuto"@
    } else if cc == 67 {
        "soft"@
    } else if cc == 91 {
        "reverb"@
    } else if cc == 93 {
        "chorus"@
    } else {
        "cc"@ + spec_nat_digits(cc as nat)
    }
}

/// The well-known controller names and their numbers.
pub open spec fn spec_named_controller(name: Seq<char>) -> Option<u8> {
    if name == "bank"@ {
        Some(0u8)
    } else if name == "modulation"@ {
        Some(1u8)
    } else if name == "breath"@ {
        Some(2u8)
    } else if name == "foot"@ {
        Some(4u8)
    } else if name == "portamentotime"@ {
        Some(5u8)
    } else if name == "volume"@ {
        Some(7u8)
    } else if name == "balance"@ {
        Some(8u8)
    } else if name == "pan"@ {
        Some(10u8)
    } else if name == "expression"@ {
        Some(11u8)
    } else if name == "sustain"@ {
        Some(64u8)
    } else if name == "portamento"@ {
        Some(65u8)
    } else if name == "sostenuto"@ {
        Some(66u8)
    } else if name == "soft"@ {
        Some(67u8)
    } else if name == "reverb"@ {
        Some(91u8)
    } else if name == "chorus"@ {
        Some(93u8)
    } else {
        None
    }
}

/// The controller number of a name: the inverse of `spec_cc_name`, with
/// `cc<N>` accepted for any number up to 127.
pub open spec fn spec_controller_number(name: Seq<char>) -> Option<u8> {
    match spec_named_controller(name) {
        Some(n) => Some(n),
        None => if name.len() >= 3 && name.len() <= 5 && name[0] == 'c' && name[1] == 'c'
            && spec_all_digits(name.skip(2)) && spec_digits_val(name.skip(2)) <= 127 {
            Some(spec_digits_val(name.skip(2)) as u8)
        } else {
            None
        },
    }
}

/// The textual name of a MIDI controller number.
pub fn midi_cc_to_name(cc: u8) -> (r: String)
    ensures
        r@ == spec_cc_name(cc),
{
    if cc == 0 {
        String::from_str("bank")
    } else if cc == 1 {
        String::from_str("modulation")
    } else if cc == 2 {
        String::from_str("breath")
    } else if cc == 4 {
        String::from_str("foot")
    } else if cc == 5 {
        String::from_str("portamentotime")
    } else if cc == 7 {
        String::from_str("volume")
    } else if cc == 8 {
        String::from_str("balance")
    } else if cc == 10 {
        String::from_str("pan")
    } else if cc == 11 {
        String::from_str("expression")
    } else if cc == 64 {
        String::from_str("sustain")
    } else if cc == 65 {
        String::from_str("portamento")
    } else if cc == 66 {
        String::from_str("sostenuto")
    } else if cc == 67 {
        String::from_str("soft")
    } else if cc == 91 {
        String::from_str("reverb")
    } else if cc == 93 {
        String::from_str("chorus")
    } else {
        let mut s = String::from_str("cc");
        push_decimal_u64(&mut s, cc as u64);
        s
    }
}

/// One MIDI channel-voice event produced from a named controller value.
#[derive(Debug, Clone, Copy, PartialEq, Eq, Structural)]
pub enum MidiControllerEvent {
    CC { number: u8, value: u8 },
    PitchBend { value: u16 },
    Aftertouch { value: u8 },
}

/// The pitch-bend raw value of a bend of `v` semitones (twelve semitones
/// across half the 14-bit range).
pub open spec fn spec_pitch_raw(v: Ratio) -> int {
    spec_clamp(spec_round_div(v.num * 8192, v.den as int * 12) + 8192, 0, 16383)
}

/// A fraction of full scale as a 7-bit controller value.
pub open spec fn spec_value_7bit(v: Ratio) -> int {
    spec_clamp(spec_round_div(v.num * 127, v.den as int), 0, 127)
}

/// The MIDI event denoted by a controller name and value.
pub open spec fn spec_controller_event(name: Seq<char>, v: Ratio) -> Result<
    MidiControllerEvent,
    MtxtError,
> {
    if name == "pitch"@ {
        Ok(MidiControllerEvent::PitchBend { value: spec_pitch_raw(v) as u16 })
    } else if name == "aftertouch"@ {
        Ok(MidiControllerEvent::Aftertouch { value: spec_value_7bit(v) as u8 })
    } else {
        match spec_controller_number(name) {
            Some(n) => Ok(MidiControllerEvent::CC { number: n, value: spec_value_7bit(v) as u8 }),
            None => Err(MtxtError::UnknownController),
        }
    }
}

/// Maps a controller name and value to the MIDI event it denotes: `pitch`
/// becomes a pitch-bend, `aftertouch` a channel aftertouch, and any other
/// known name a control change; an unknown name is rejected.
pub fn controller_name_to_midi(name: &str, value: &Ratio) -> (r: Result<
    MidiControllerEvent,
    MtxtError,
>)
    requires
        value.valid(),
    ensures
        r == spec_controller_event(name@, *value),
{
    if str_eq(name, "pitch") {
        let centered = value.scaled_div_clamped(8192, 12, -8192, 8191);
        let raw = centered + 8192;
        proof {
            assert(raw == spec_pitch_raw(*value));
        }
        Ok(MidiControllerEvent::PitchBend { value: raw as u16 })
    } else if str_eq(name, "aftertouch") {
        let v7 = value.scaled_div_clamped(127, 1, 0, 127);
        Ok(MidiControllerEvent::Aftertouch { value: v7 as u8 })
    } else {
        match controller_number(name) {
            Some(n) => {
                let v7 = value.scaled_div_clamped(127, 1, 0, 127);
                Ok(MidiControllerEvent::CC { number: n, value: v7 as u8 })
            },
            None => Err(MtxtError::UnknownController),
        }
    }
}

/// The controller number of a name.
pub fn controller_number(name: &str) -> (r: Option<u8>)
    ensures
        r == spec_controller_number(name@),
{
    if str_eq(name, "bank") {
        Some(0)
    } else if str_eq(name, "modulation") {
        Some(1)
    } else if str_eq(name, "breath") {
        Some(2)
    } else if str_eq(name, "foot") {
        Some(4)
    } else if str_eq(name, "portamentotime") {
        Some(5)
    } else if str_eq(name, "volume") {
        Some(7)
    } else if str_eq(name, "balance") {
        Some(8)
    } else if str_eq(name, "pan") {
        Some(10)
    } else if str_eq(name, "expression") {
        Some(11)
    } else if str_eq(name, "sustain") {
        Some(64)
    } else if str_eq(name, "portamento") {
        Some(65)
    } else if str_eq(name, "sostenuto") {
        Some(66)
    } else if str_eq(name, "soft") {
        Some(67)
    } else if str_eq(name, "reverb") {
        Some(91)
    } else if str_eq(name, "chorus") {
        Some(93)
    } else {
        let n = name.unicode_len();
        if n < 3 || n > 5 {
            return None;
        }
        if name.get_char(0) != 'c' || name.get_char(1) != 'c' {
            return None;
        }
        let ghost digits = name@.skip(2);
        let mut v: u64 = 0;
        let mut i: usize = 2;
        while i < n
            invariant
                2 <= i <= n,
                n == name@.len(),
                3 <= n <= 5,
                digits == name@.skip(2),
                name@[0] == 'c',
                name@[1] == 'c',
                spec_named_controller(name@) is None,
                spec_all_digits(digits.take(i - 2)),
                v == spec_digits_val(digits.take(i - 2)),
                v < 1000,
            decreases n - i,
        {
            let c = name.get_char(i);
            let cv = c as u32;
            proof {
                assert(digits[i - 2] == name@[i as int]);
            }
            if cv < 48 || cv > 57 {
                proof {
                    assert(!crate::text::spec_is_digit(digits[i - 2]));
                }
                return None;
            }
            proof {
                let t = digits.take(i - 1);
                assert(t.drop_last() =~= digits.take(i - 2));
                assert(t.last() == digits[i - 2]);
                assert(crate::text::spec_digit_val(digits[i - 2]) == cv - 48);
                crate::text::lemma_digits_val_bound(digits.take(i - 2));
                crate::text::lemma_pow10_le_2((i - 2) as nat);
            }
            v = v * 10 + ((cv - 48) as u64);
            i = i + 1;
        }
        proof {
            assert(digits.take(n - 2) =~= digits);
        }
        if v > 127 {
            return None;
        }
        Some(v as u8)
    }
}

/// Naming a controller number and reading the name back yields the same
/// number, for every controller in the 7-bit range.
pub proof fn lemma_cc_name_roundtrip(cc: u8)
    requires
        cc <= 127,
    ensures
        spec_controller_number(spec_cc_name(cc)) == Some(cc),
{
    reveal_strlit("bank");
    reveal_strlit("modulation");
    reveal_strlit("breath");
    reveal_strlit("foot");
    reveal_strlit("portamentotime");
    reveal_strlit("volume");
    reveal_strlit("balance");
    reveal_strlit("pan");
    reveal_strlit("expression");
    reveal_strlit("sustain");
    reveal_strlit("portamento");
    reveal_strlit("sostenuto");
    reveal_strlit("soft");
    reveal_strlit("reverb");
    reveal_strlit("chorus");
    reveal_strlit("cc");
    if cc == 0 || cc == 1 || cc == 2 || cc == 4 || cc == 5 || cc == 7 || cc == 8 || cc == 10
        || cc == 11 || cc == 64 || cc == 65 || cc == 66 || cc == 67 || cc == 91 || cc == 93 {
        assert("bank"@[0] == 'b' && "modulation"@[0] == 'm' && "breath"@[0] == 'b' && "foot"@[0]
            == 'f' && "portamentotime"@[0] == 'p' && "volume"@[0] == 'v' && "balance"@[0] == 'b'
            && "pan"@[0] == 'p' && "expression"@[0] == 'e' && "sustain"@[0] == 's'
            && "portamento"@[0] == 'p' && "sostenuto"@[0] == 's' && "soft"@[0] == 's'
            && "reverb"@[0] == 'r' && "chorus"@[0] == 'c');
        assert("breath"@[1] == 'r' && "balance"@[1] == 'a' && "bank"@[1] == 'a' && "soft"@[1]
            == 'o' && "sustain"@[1] == 'u' && "sostenuto"@[1] == 'o' && "portamento"@[1] == 'o'
            && "pan"@[1] == 'a');
        if cc == 0 {
            assert(spec_cc_name(cc) == "bank"@);
            assert(spec_named_controller("bank"@) == Some(0u8));
        } else if cc == 1 {
            assert(spec_named_controller(spec_cc_name(cc)) == Some(1u8));
        } else if cc == 2 {
            assert(spec_named_controller(spec_cc_name(cc)) == Some(2u8));
        } else if cc == 4 {
            assert(spec_named_controller(spec_cc_name(cc)) == Some(4u8));
        } else if cc == 5 {
            assert(spec_named_controller(spec_cc_name(cc)) == Some(5u8));
        } else if cc == 7 {
            assert(spec_named_controller(spec_cc_name(cc)) == Some(7u8));
        } else if cc == 8 {
            assert(spec_named_controller(spec_cc_name(cc)) == Some(8u8));
        } else if cc == 10 {
            assert(spec_named_controller(spec_cc_name(cc)) == Some(10u8));
        } else if cc == 11 {
            assert(spec_named_controller(spec_cc_name(cc)) == Some(11u8));
        } else if cc == 64 {
            assert(spec_named_controller(spec_cc_name(cc)) == Some(64u8));
        } else if cc == 65 {
            assert(spec_named_controller(spec_cc_name(cc)) == Some(65u8));
        } else if cc == 66 {
            assert(spec_named_controller(spec_cc_name(cc)) == Some(66u8));
        } else if cc == 67 {
            assert(spec_named_controller(spec_cc_name(cc)) == Some(67u8));
        } else if cc == 91 {
            assert(spec_named_controller(spec_cc_name(cc)) == Some(91u8));
        } else {
            assert(spec_named_controller(spec_cc_name(cc)) == Some(93u8));
        }
        assert(spec_controller_number(spec_cc_name(cc)) == Some(cc));
    } else {
        let name = "cc"@ + spec_nat_digits(cc as nat);
        lemma_nat_digits_val(cc as nat);
        assert(1 <= spec_nat_digits(cc as nat).len() <= 3) by {
            crate::text::lemma_digits_val_bound(spec_nat_digits(cc as nat));
            if spec_nat_digits(cc as nat).len() >= 4 {
                assert(spec_nat_digits(cc as nat)[0] != '0' || cc as nat == 0);
                lemma_digits_len_bound(cc as nat);
            }
        }
        assert(3 <= name.len() <= 5);
        assert(name[0] == 'c' && name[1] == 'c');
        assert(name.skip(2) =~= spec_nat_digits(cc as nat));
        assert(name != "bank"@ && name != "modulation"@ && name != "breath"@ && name != "foot"@
            && name != "portamentotime"@ && name != "volume"@ && name != "balance"@ && name
            != "pan"@ && name != "expression"@ && name != "sustain"@ && name != "portamento"@
            && name != "sostenuto"@ && name != "soft"@ && name != "reverb"@ && name != "chorus"@
            && name != "pitch"@ && name != "aftertouch"@) by {
            reveal_strlit("pitch");
            reveal_strlit("aftertouch");
            assert(name[1] == 'c');
        }
        assert(spec_controller_number(spec_cc_name(cc)) == Some(cc));
    }
}

/// A number below 1000 has at most three digits.
proof fn lemma_digits_len_bound(n: nat)
    requires
        n < 1000,
    ensures
        spec_nat_digits(n).len() <= 3,
{
    if n >= 100 {
        assert(spec_nat_digits(n) == spec_nat_digits(n / 10).push(
            crate::text::spec_digit_char(n % 10),
        ));
        assert(spec_nat_digits(n / 10) == spec_nat_digits(n / 100).push(
            crate::text::spec_digit_char((n / 10) % 10),
        ));
        assert(n / 100 < 10);
    } else if n >= 10 {
        assert(spec_nat_digits(n) == spec_nat_digits(n / 10).push(
            crate::text::spec_digit_char(n % 10),
        ));
        assert(n / 10 < 10);
    }
}

/// A velocity or controller value written as the exact fraction `raw/127`
/// scales back to exactly `raw`: forward and reverse value mappings are
/// mutually inverse on the 7-bit range.
pub proof fn lemma_value_7bit_roundtrip(raw: u8)
    requires
        raw <= 127,
    ensures
        spec_value_7bit(Ratio { num: raw as i64, den: 127 }) == raw,
{
    let a = (raw as int) * 127;
    assert((a + 63) / 127 == raw) by (nonlinear_arith)
        requires
            a == (raw as int) * 127,
    ;
}

/// A pitch bend written as the exact semitone fraction
/// `(raw - 8192) * 12 / 8192` maps back to exactly `raw`: the forward and
/// reverse pitch scalings are mutually inverse on the 14-bit range.
pub proof fn lemma_pitch_roundtrip(raw: u16)
    requires
        raw <= 16383,
    ensures
        spec_pitch_raw(Ratio { num: ((raw as int - 8192) * 12) as i64, den: 8192 }) == raw,
{
    let x = raw as int - 8192;
    let num: int = x * 12;
    let b: int = (8192 * 12) as int;
    assert(spec_round_div(num * 8192, b) == x) by {
        assert(num * 8192 == x * 98304) by (nonlinear_arith)
            requires
                num == x * 12,
        ;
        if x >= 0 {
            assert((x * 98304 + 49152) / 98304 == x) by (nonlinear_arith);
        } else {
            assert((-(x * 98304) + 49152) / 98304 == -x) by (nonlinear_arith);
        }
    }
}

/// The key-signature text of a count of sharps (positive) or flats
/// (negative) and a mode.
pub open spec fn spec_key_signature_text(sharps_flats: i8, minor: bool) -> Seq<char> {
    if minor {
        if sharps_flats == -7 {
            "Abm"@
        } else if sharps_flats == -6 {
            "Ebm"@
        } else if sharps_flats == -5 {
            "Bbm"@
        } else if sharps_flats == -4 {
            "Fm"@
        } else if sharps_flats == -3 {
            "Cm"@
        } else if sharps_flats == -2 {
            "Gm"@
        } else if sharps_flats == -1 {
            "Dm"@
        } else if sharps_flats == 0 {
            "Am"@
        } else if sharps_flats == 1 {
            "Em"@
        } else if sharps_flats == 2 {
            "Bm"@
        } else if sharps_flats == 3 {
            "F#m"@
        } else if sharps_flats == 4 {
            "C#m"@
        } else if sharps_flats == 5 {
            "G#m"@
        } else if sharps_flats == 6 {
            "D#m"@
        } else if sharps_flats == 7 {
            "A#m"@
        } else {
            "unknown"@
        }
    } else {
        if sharps_flats == -7 {
            "Cb"@
        } else if sharps_flats == -6 {
            "Gb"@
        } else if sharps_flats == -5 {
            "Db"@
        } else if sharps_flats == -4 {
            "Ab"@
        } else if sharps_flats == -3 {
            "Eb"@
        } else if sharps_flats == -2 {
            "Bb"@
        } else if sharps_flats == -1 {
            "F"@
        } else if sharps_flats == 0 {
            "C"@
        } else if sharps_flats == 1 {
            "G"@
        } else if sharps_flats == 2 {
            "D"@
        } else if sharps_flats == 3 {
            "A"@
        } else if sharps_flats == 4 {
            "E"@
        } else if sharps_flats == 5 {
            "B"@
        } else if sharps_flats == 6 {
            "F#"@
        } else if sharps_flats == 7 {
            "C#"@
        } else {
            "unknown"@
        }
    }
}

/// The key-signature text of a sharps/flats count and mode.
pub fn midi_key_signature_to_string(sharps_flats: i8, minor: bool) -> (r: String)
    ensures
        r@ == spec_key_signature_text(sharps_flats, minor),
{
    let name: &str = if minor {
        if sharps_flats == -7 {
            "Abm"
        } else if sharps_flats == -6 {
            "Ebm"
        } else if sharps_flats == -5 {
            "Bbm"
        } else if sharps_flats == -4 {
            "Fm"
        } else if sharps_flats == -3 {
            "Cm"
        } else if sharps_flats == -2 {
            "Gm"
        } else if sharps_flats == -1 {
            "Dm"
        } else if sharps_flats == 0 {
            "Am"
        } else if sharps_flats == 1 {
            "Em"
        } else if sharps_flats == 2 {
            "Bm"
        } else if sharps_flats == 3 {
            "F#m"
        } else if sharps_flats == 4 {
            "C#m"
        } else if sharps_flats == 5 {
            "G#m"
        } else if sharps_flats == 6 {
            "D#m"
        } else if sharps_flats == 7 {
            "A#m"
        } else {
            "unknown"
        }
    } else {
        if sharps_flats == -7 {
            "Cb"
        } else if sharps_flats == -6 {
            "Gb"
        } else if sharps_flats == -5 {
            "Db"
        } else if sharps_flats == -4 {
            "Ab"
        } else if sharps_flats == -3 {
            "Eb"
        } else if sharps_flats == -2 {
            "Bb"
        } else if sharps_flats == -1 {
            "F"
        } else if sharps_flats == 0 {
            "C"
        } else if sharps_flats == 1 {
            "G"
        } else if sharps_flats == 2 {
            "D"
        } else if sharps_flats == 3 {
            "A"
        } else if sharps_flats == 4 {
            "E"
        } else if sharps_flats == 5 {
            "B"
        } else if sharps_flats == 6 {
            "F#"
        } else if sharps_flats == 7 {
            "C#"
        } else {
            "unknown"
        }
    };
    String::from_str(name)
}

/// The floor of the base-two logarithm of a denominator.
pub open spec fn spec_log2_floor(d: int) -> int
    decreases d,
{
    if d <= 1 {
        0
    } else {
        1 + spec_log2_floor(d / 2)
    }
}

/// The SMF form of a time signature: the numerator and the base-two
/// logarithm of the denominator.
pub fn time_signature_to_midi(sig: &crate::records::TimeSignature) -> (r: (u8, u8))
    ensures
        r.0 == sig.numerator,
        r.1 == spec_log2_floor(sig.denominator as int),
{
    let mut d: u8 = sig.denominator;
    let mut e: u8 = 0;
    proof {
        lemma_log2_floor_bounds(sig.denominator as int);
        assert(spec_log2_floor(sig.denominator as int) == e + spec_log2_floor(d as int));
    }
    while d > 1
        invariant
            spec_log2_floor(sig.denominator as int) == e + spec_log2_floor(d as int),
            d <= 255,
            e + spec_log2_floor(d as int) <= 7,
            spec_log2_floor(d as int) >= 0,
        decreases d,
    {
        proof {
            assert(spec_log2_floor(d as int) == 1 + spec_log2_floor(d as int / 2));
            lemma_log2_floor_bounds(d as int / 2);
        }
        d = d / 2;
        e = e + 1;
    }
    (sig.numerator, e)
}

/// The base-two logarithm of an eight-bit value lies in `[0, 7]`.
proof fn lemma_log2_floor_bounds(d: int)
    requires
        d <= 255,
    ensures
        0 <= spec_log2_floor(d) <= 7,
    decreases (if d >= 0 { d } else { 0 }),
{
    if d > 1 {
        lemma_log2_floor_bounds(d / 2);
        if d >= 128 {
            assert(spec_log2_floor(d / 2) <= 6) by {
                lemma_log2_floor_le(d / 2, 127);
                assert(spec_log2_floor(127) == 6) by {
                    reveal_with_fuel(spec_log2_floor, 9);
                }
            }
        } else {
            lemma_log2_floor_le(d / 2, 63);
            assert(spec_log2_floor(63) == 5) by {
                reveal_with_fuel(spec_log2_floor, 9);
            }
        }
    }
}

/// The base-two logarithm is nonnegative.
proof fn lemma_log2_floor_nonneg(d: int)
    ensures
        spec_log2_floor(d) >= 0,
    decreases (if d >= 0 { d } else { 0 }),
{
    if d > 1 {
        lemma_log2_floor_nonneg(d / 2);
    }
}

/// The base-two logarithm is monotone.
proof fn lemma_log2_floor_le(d: int, bound: int)
    requires
        d <= bound,
    ensures
        spec_log2_floor(d) <= spec_log2_floor(bound),
    decreases (if bound >= 0 { bound } else { 0 }),
{
    if d > 1 {
        lemma_log2_floor_le(d / 2, bound / 2);
    } else {
        lemma_log2_floor_nonneg(bound);
    }
}

/// The value of a decimal digit string as a program number, if it is one
/// in range; programs past 255 or malformed text give nothing.
pub fn parse_program_number(s: &str) -> (r: Option<u8>)
    ensures
        match r {
            Some(v) => spec_all_digits(s@) && s@.len() >= 1 && spec_digits_val(s@) <= 255 && v
                == spec_digits_val(s@),
            None => !(spec_all_digits(s@) && s@.len() >= 1 && spec_digits_val(s@) <= 255),
        },
{
    let n = s.unicode_len();
    if n == 0 {
        return None;
    }
    let mut v: u64 = 0;
    let mut i: usize = 0;
    while i < n
        invariant
            0 <= i <= n,
            n == s@.len(),
            spec_all_digits(s@.take(i as int)),
            v == spec_digits_val(s@.take(i as int)),
            v <= 255,
        decreases n - i,
    {
        let c = s.get_char(i);
        let cv = c as u32;
        if cv < 48 || cv > 57 {
            proof {
                assert(!crate::text::spec_is_digit(s@[i as int]));
                assert(s@.take(n as int) =~= s@);
                assert(!spec_all_digits(s@)) by {
                    assert(s@[i as int] == s@[i as int]);
                }
            }
            return None;
        }
        proof {
            let t = s@.take(i + 1);
            assert(t.drop_last() =~= s@.take(i as int));
            assert(t.last() == s@[i as int]);
        }
        let next = v * 10 + ((cv - 48) as u64);
        if next > 255 {
            proof {
                crate::text::lemma_digits_val_prefix_monotone(s@, i + 1);
            }
            return None;
        }
        v = next;
        i = i + 1;
    }
    proof {
        assert(s@.take(n as int) =~= s@);
    }
    Some(v as u8)
}

} // verus!
