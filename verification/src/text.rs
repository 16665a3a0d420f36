//! Decimal and hexadecimal text helpers shared by the value types and the
//! translators: rendering naturals as digit strings, reading them back, and
//! appending characters to a `String`.

use vstd::prelude::*;

verus! {

/// The decimal digit `d` as a character, for `d < 10`.
pub open spec fn spec_digit_char(d: nat) -> char
    recommends
        d < 10,
{
    ((48 + d) as u8) as char
}

/// Whether `c` is a decimal digit.
pub open spec fn spec_is_digit(c: char) -> bool {
    48 <= c as int <= 57
}

/// The numeric value of a digit character.
pub open spec fn spec_digit_val(c: char) -> nat
    recommends
        spec_is_digit(c),
{
    (c as int - 48) as nat
}

/// Whether every character of `s` is a decimal digit.
pub open spec fn spec_all_digits(s: Seq<char>) -> bool {
    forall|i: int| 0 <= i < s.len() ==> spec_is_digit(#[trigger] s[i])
}

/// The natural number denoted by the digit string `s` (most significant
/// digit first); 0 for the empty string.
pub open spec fn spec_digits_val(s: Seq<char>) -> nat
    decreases s.len(),
{
    if s.len() == 0 {
        0
    } else {
        spec_digits_val(s.drop_last()) * 10 + spec_digit_val(s.last())
    }
}

/// The canonical (no leading zero) decimal rendering of `n`.
pub open spec fn spec_nat_digits(n: nat) -> Seq<char>
    decreases n,
{
    if n < 10 {
        seq![spec_digit_char(n)]
    } else {
        spec_nat_digits(n / 10).push(spec_digit_char(n % 10))
    }
}

/// `10^k`.
pub open spec fn spec_pow10(k: nat) -> nat
    decreases k,
{
    if k == 0 {
        1
    } else {
        10 * spec_pow10((k - 1) as nat)
    }
}

/// The `width`-digit, zero-padded rendering of `n % 10^width`.
pub open spec fn spec_nat_digits_width(n: nat, width: nat) -> Seq<char>
    decreases width,
{
    if width == 0 {
        Seq::empty()
    } else {
        spec_nat_digits_width(n / 10, (width - 1) as nat).push(spec_digit_char(n % 10))
    }
}

/// Relies on String::push: appends exactly the given character.
#[verifier::external_body]
pub fn push_char(s: &mut String, c: char)
    ensures
        final(s)@ == old(s)@.push(c),
{
    s.push(c);
}

/// The digit `d` as a character.
pub fn digit_char(d: u8) -> (c: char)
    requires
        d < 10,
    ensures
        c == spec_digit_char(d as nat),
{
    (48 + d) as char
}

/// Appends the canonical decimal rendering of `n` to `s`.
pub fn push_decimal_u64(s: &mut String, n: u64)
    ensures
        final(s)@ == old(s)@ + spec_nat_digits(n as nat),
    decreases n,
{
    if n >= 10 {
        push_decimal_u64(s, n / 10);
    }
    push_char(s, digit_char((n % 10) as u8));
    proof {
        if n < 10 {
            assert(spec_nat_digits(n as nat) == seq![spec_digit_char(n as nat)]);
            assert(final(s)@ =~= old(s)@ + spec_nat_digits(n as nat));
        } else {
            assert(final(s)@ =~= old(s)@ + spec_nat_digits(n as nat));
        }
    }
}

/// The canonical decimal rendering of `n` as a fresh string.
pub fn u64_to_string(n: u64) -> (s: String)
    ensures
        s@ == spec_nat_digits(n as nat),
{
    let mut s = String::new();
    push_decimal_u64(&mut s, n);
    proof {
        assert(s@ =~= spec_nat_digits(n as nat));
    }
    s
}

/// Every canonical digit string consists of digits, is nonempty, and has no
/// leading zero unless it denotes 0; its value is the rendered number.
pub proof fn lemma_nat_digits_val(n: nat)
    ensures
        spec_all_digits(spec_nat_digits(n)),
        spec_nat_digits(n).len() >= 1,
        spec_digits_val(spec_nat_digits(n)) == n,
        n > 0 ==> spec_nat_digits(n)[0] != '0',
        n == 0 ==> spec_nat_digits(n) == seq!['0'],
    decreases n,
{
    if n < 10 {
        assert(spec_nat_digits(n) == seq![spec_digit_char(n)]);
        let one = seq![spec_digit_char(n)];
        assert(one.drop_last() =~= Seq::<char>::empty());
        assert(spec_digits_val(one) == spec_digits_val(one.drop_last()) * 10 + spec_digit_val(
            one.last(),
        ));
        assert(spec_digits_val(one) == spec_digit_val(spec_digit_char(n)));
    } else {
        lemma_nat_digits_val(n / 10);
        let pre = spec_nat_digits(n / 10);
        let whole = pre.push(spec_digit_char(n % 10));
        assert(whole.drop_last() =~= pre);
        assert(spec_digits_val(whole) == spec_digits_val(pre) * 10 + spec_digit_val(whole.last()));
        assert(spec_digit_val(spec_digit_char(n % 10)) == n % 10);
        assert(spec_digits_val(whole) == (n / 10) * 10 + n % 10);
        assert((n / 10) * 10 + n % 10 == n);
        assert forall|i: int| 0 <= i < whole.len() implies spec_is_digit(#[trigger] whole[i]) by {
            if i < pre.len() {
                assert(whole[i] == pre[i]);
            }
        }
        assert(whole[0] == pre[0]);
    }
}

/// A digit string without a leading zero is the canonical rendering of its
/// value; rendering and reading digit strings are mutually inverse.
pub proof fn lemma_digits_canon(s: Seq<char>)
    requires
        spec_all_digits(s),
        s.len() >= 1,
        s[0] != '0' || s.len() == 1,
    ensures
        spec_nat_digits(spec_digits_val(s)) == s,
    decreases s.len(),
{
    if s.len() == 1 {
        assert(s.drop_last() =~= Seq::<char>::empty());
        assert(s.last() == s[0]);
        assert(spec_digits_val(Seq::<char>::empty()) == 0);
        assert(spec_digits_val(s) == spec_digits_val(s.drop_last()) * 10 + spec_digit_val(s.last()));
        assert(spec_digits_val(s) == spec_digit_val(s[0]));
        assert(spec_is_digit(s[0]));
        assert(spec_digit_char(spec_digit_val(s[0])) == s[0]);
        assert(spec_nat_digits(spec_digits_val(s)) =~= s);
    } else {
        let pre = s.drop_last();
        assert(pre[0] == s[0]);
        assert forall|i: int| 0 <= i < pre.len() implies spec_is_digit(#[trigger] pre[i]) by {
            assert(pre[i] == s[i]);
        }
        lemma_digits_canon(pre);
        let v = spec_digits_val(s);
        let pv = spec_digits_val(pre);
        assert(v == pv * 10 + spec_digit_val(s.last()));
        lemma_nat_digits_val(pv);
        assert(pv > 0) by {
            if pv == 0 {
                assert(spec_nat_digits(pv) == pre);
                assert(pre[0] == '0');
            }
        }
        assert(v >= 10) by {
            assert(pv * 10 >= 10) by (nonlinear_arith)
                requires
                    pv >= 1,
            ;
        }
        assert(v / 10 == pv && v % 10 == spec_digit_val(s.last())) by {
            assert(spec_digit_val(s.last()) < 10);
            assert(pv * 10 + spec_digit_val(s.last()) == pv * 10 + spec_digit_val(s.last()));
            assert((pv * 10 + spec_digit_val(s.last())) / 10 == pv && (pv * 10 + spec_digit_val(
                s.last(),
            )) % 10 == spec_digit_val(s.last())) by (nonlinear_arith)
                requires
                    spec_digit_val(s.last()) < 10,
            ;
        }
        assert(spec_digit_char(spec_digit_val(s.last())) == s.last()) by {
            assert(spec_is_digit(s.last()));
        }
        assert(spec_nat_digits(v) == spec_nat_digits(pv).push(s.last()));
        assert(spec_nat_digits(v) =~= s);
    }
}

/// Extending a digit string on the right never decreases its value.
pub proof fn lemma_digits_val_prefix_monotone(s: Seq<char>, i: int)
    requires
        0 <= i <= s.len(),
    ensures
        spec_digits_val(s.take(i)) <= spec_digits_val(s),
    decreases s.len() - i,
{
    if i < s.len() {
        lemma_digits_val_prefix_monotone(s, i + 1);
        let t = s.take(i + 1);
        assert(t.drop_last() =~= s.take(i));
        assert(spec_digits_val(t) == spec_digits_val(s.take(i)) * 10 + spec_digit_val(t.last()));
        assert(spec_digits_val(s.take(i)) * 10 >= spec_digits_val(s.take(i))) by (nonlinear_arith);
    } else {
        assert(s.take(i) =~= s);
    }
}

/// A verified byte-for-byte copy.
pub fn copy_bytes(v: &Vec<u8>) -> (r: Vec<u8>)
    ensures
        r@ == v@,
{
    let mut out: Vec<u8> = Vec::new();
    let mut i: usize = 0;
    while i < v.len()
        invariant
            0 <= i <= v@.len(),
            out@ == v@.take(i as int),
        decreases v@.len() - i,
    {
        out.push(v[i]);
        proof {
            assert(out@ =~= v@.take(i + 1));
        }
        i = i + 1;
    }
    proof {
        assert(v@.take(v@.len() as int) =~= v@);
    }
    out
}

/// Character-by-character string equality.
pub fn str_eq(a: &str, b: &str) -> (r: bool)
    ensures
        r == (a@ == b@),
{
    let na = a.unicode_len();
    let nb = b.unicode_len();
    if na != nb {
        return false;
    }
    let mut i: usize = 0;
    while i < na
        invariant
            0 <= i <= na,
            na == a@.len(),
            na == b@.len(),
            forall|j: int| 0 <= j < i ==> a@[j] == #[trigger] b@[j],
        decreases na - i,
    {
        if a.get_char(i) != b.get_char(i) {
            return false;
        }
        i = i + 1;
    }
    proof {
        assert(a@ =~= b@);
    }
    true
}

/// `10^k <= 100` for `k <= 2`.
pub proof fn lemma_pow10_le_2(k: nat)
    requires
        k <= 2,
    ensures
        spec_pow10(k) <= 100,
{
    reveal_with_fuel(spec_pow10, 3);
    if k == 0 {
    } else if k == 1 {
    } else {
        assert(k == 2);
    }
}

/// `10^(a+b) == 10^a * 10^b`.
pub proof fn lemma_pow10_add(a: nat, b: nat)
    ensures
        spec_pow10(a + b) == spec_pow10(a) * spec_pow10(b),
    decreases a,
{
    if a == 0 {
        assert(spec_pow10(0) == 1);
    } else {
        lemma_pow10_add((a - 1) as nat, b);
        assert(spec_pow10(a) == 10 * spec_pow10((a - 1) as nat));
        assert((a - 1) as nat + b == (a + b - 1) as nat);
        assert(spec_pow10(a + b) == 10 * spec_pow10((a + b - 1) as nat));
        assert(10 * (spec_pow10((a - 1) as nat) * spec_pow10(b)) == (10 * spec_pow10(
            (a - 1) as nat,
        )) * spec_pow10(b)) by (nonlinear_arith);
    }
}

/// A digit string's value is below `10^len`.
pub proof fn lemma_digits_val_bound(s: Seq<char>)
    requires
        spec_all_digits(s),
    ensures
        spec_digits_val(s) < spec_pow10(s.len()),
    decreases s.len(),
{
    if s.len() == 0 {
        assert(spec_pow10(0) == 1);
    } else {
        let pre = s.drop_last();
        assert forall|i: int| 0 <= i < pre.len() implies spec_is_digit(#[trigger] pre[i]) by {
            assert(pre[i] == s[i]);
        }
        lemma_digits_val_bound(pre);
        assert(spec_is_digit(s.last()));
        assert(spec_pow10(s.len()) == 10 * spec_pow10((s.len() - 1) as nat));
        assert(spec_digits_val(pre) * 10 + 9 < spec_pow10((s.len() - 1) as nat) * 10)
            by (nonlinear_arith)
            requires
                spec_digits_val(pre) < spec_pow10((s.len() - 1) as nat),
        ;
    }
}

/// A digit string of any leading-zero shape is recovered by width-padded
/// rendering of its value.
pub proof fn lemma_digits_width_canon(s: Seq<char>)
    requires
        spec_all_digits(s),
    ensures
        spec_nat_digits_width(spec_digits_val(s), s.len()) == s,
    decreases s.len(),
{
    if s.len() == 0 {
        assert(spec_nat_digits_width(spec_digits_val(s), 0) =~= s);
    } else {
        let pre = s.drop_last();
        assert forall|i: int| 0 <= i < pre.len() implies spec_is_digit(#[trigger] pre[i]) by {
            assert(pre[i] == s[i]);
        }
        lemma_digits_width_canon(pre);
        let v = spec_digits_val(s);
        let pv = spec_digits_val(pre);
        let dl = spec_digit_val(s.last());
        assert(v == pv * 10 + dl);
        assert(spec_is_digit(s.last()));
        assert(v / 10 == pv && v % 10 == dl) by (nonlinear_arith)
            requires
                v == pv * 10 + dl,
                dl < 10,
        ;
        assert(spec_digit_char(v % 10) == s.last());
        assert(spec_nat_digits_width(v, s.len()) == spec_nat_digits_width(
            pv,
            (s.len() - 1) as nat,
        ).push(s.last()));
        assert(spec_nat_digits_width(v, s.len()) =~= s);
    }
}

/// The hexadecimal digit `d` as an uppercase character, for `d < 16`.
pub open spec fn spec_hex_char(d: nat) -> char
    recommends
        d < 16,
{
    if d < 10 {
        ((48 + d) as u8) as char
    } else {
        ((55 + d) as u8) as char
    }
}

/// The two-character uppercase hexadecimal rendering of a byte.
pub open spec fn spec_byte_hex(b: u8) -> Seq<char> {
    seq![spec_hex_char(b as nat / 16), spec_hex_char(b as nat % 16)]
}

/// The concatenation of the two-character renderings of all bytes.
pub open spec fn spec_bytes_hex(bytes: Seq<u8>) -> Seq<char>
    decreases bytes.len(),
{
    if bytes.len() == 0 {
        Seq::empty()
    } else {
        spec_bytes_hex(bytes.drop_last()) + spec_byte_hex(bytes.last())
    }
}

/// The hexadecimal digit `d` as an uppercase character.
pub fn hex_char(d: u8) -> (c: char)
    requires
        d < 16,
    ensures
        c == spec_hex_char(d as nat),
{
    if d < 10 {
        (48 + d) as char
    } else {
        (55 + d) as char
    }
}

/// The uppercase hexadecimal rendering of a byte string.
pub fn bytes_to_hex(bytes: &Vec<u8>) -> (s: String)
    ensures
        s@ == spec_bytes_hex(bytes@),
{
    let mut s = String::new();
    let mut i: usize = 0;
    proof {
        assert(s@ =~= spec_bytes_hex(bytes@.take(0)));
    }
    while i < bytes.len()
        invariant
            i <= bytes.len(),
            s@ == spec_bytes_hex(bytes@.take(i as int)),
        decreases bytes.len() - i,
    {
        let b = bytes[i];
        push_char(&mut s, hex_char(b / 16));
        push_char(&mut s, hex_char(b % 16));
        proof {
            let t = bytes@.take(i + 1);
            assert(t.drop_last() =~= bytes@.take(i as int));
            assert(t.last() == bytes@[i as int]);
            assert(s@ =~= spec_bytes_hex(bytes@.take(i + 1)));
        }
        i = i + 1;
    }
    proof {
        assert(bytes@.take(bytes@.len() as int) =~= bytes@);
    }
    s
}

} // verus!
