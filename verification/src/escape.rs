//! String escaping for text-bearing fields: backslash, newline, tab and
//! quote get two-character escapes, other control characters a `\xHH`
//! escape. Unescaping is the exact inverse; an unknown escape is an error.

use vstd::prelude::*;

use crate::errors::MtxtError;
use crate::text::{hex_char, push_char, spec_hex_char};

verus! {

/// The escape sequence of one character.
pub open spec fn spec_escape_char(c: char) -> Seq<char> {
    if c == '\\' {
        seq!['\\', '\\']
    } else if c == '\n' {
        seq!['\\', 'n']
    } else if c == '\t' {
        seq!['\\', 't']
    } else if c == '"' {
        seq!['\\', '"']
    } else if 0 <= (c as int) < 32 {
        seq![
            '\\',
            'x',
            spec_hex_char(((c as int) / 16) as nat),
            spec_hex_char(((c as int) % 16) as nat),
        ]
    } else {
        seq![c]
    }
}

/// The escaped form of a string.
pub open spec fn spec_escape(s: Seq<char>) -> Seq<char>
    decreases s.len(),
{
    if s.len() == 0 {
        Seq::empty()
    } else {
        spec_escape_char(s[0]) + spec_escape(s.drop_first())
    }
}

/// The value of a hexadecimal digit character, or 16 for any other
/// character.
pub open spec fn spec_hex_val(c: char) -> nat {
    if 48 <= c as int <= 57 {
        (c as int - 48) as nat
    } else if 65 <= c as int <= 70 {
        (c as int - 55) as nat
    } else if 97 <= c as int <= 102 {
        (c as int - 87) as nat
    } else {
        16
    }
}

/// The unescaped form of a string; an unknown escape, a truncated escape,
/// or a bad hex digit is an error.
pub open spec fn spec_unescape(s: Seq<char>) -> Result<Seq<char>, MtxtError>
    decreases s.len(),
{
    if s.len() == 0 {
        Ok(Seq::empty())
    } else if s[0] != '\\' {
        match spec_unescape(s.drop_first()) {
            Ok(r) => Ok(seq![s[0]] + r),
            Err(e) => Err(e),
        }
    } else if s.len() < 2 {
        Err(MtxtError::InputParse)
    } else if s[1] == '\\' || s[1] == 'n' || s[1] == 't' || s[1] == '"' {
        let c = if s[1] == '\\' {
            '\\'
        } else if s[1] == 'n' {
            '\n'
        } else if s[1] == 't' {
            '\t'
        } else {
            '"'
        };
        match spec_unescape(s.skip(2)) {
            Ok(r) => Ok(seq![c] + r),
            Err(e) => Err(e),
        }
    } else if s[1] == 'x' {
        if s.len() < 4 {
            Err(MtxtError::InputParse)
        } else if spec_hex_val(s[2]) < 16 && spec_hex_val(s[3]) < 16 {
            let code = spec_hex_val(s[2]) * 16 + spec_hex_val(s[3]);
            match spec_unescape(s.skip(4)) {
                Ok(r) => Ok(seq![(code as u8) as char] + r),
                Err(e) => Err(e),
            }
        } else {
            Err(MtxtError::InputParse)
        }
    } else {
        Err(MtxtError::InputParse)
    }
}

/// Escapes a string.
pub fn escape_string(s: &str) -> (r: String)
    ensures
        r@ == spec_escape(s@),
{
    let n = s.unicode_len();
    let mut out = String::new();
    let mut i: usize = 0;
    proof {
        assert(s@.skip(0) =~= s@);
        assert(out@ + spec_escape(s@.skip(0)) =~= spec_escape(s@));
    }
    while i < n
        invariant
            0 <= i <= n,
            n == s@.len(),
            spec_escape(s@) == out@ + spec_escape(s@.skip(i as int)),
        decreases n - i,
    {
        let c = s.get_char(i);
        let ghost rest = s@.skip(i as int);
        proof {
            assert(rest.len() > 0);
            assert(rest[0] == s@[i as int]);
            assert(rest.drop_first() =~= s@.skip(i + 1));
            assert(spec_escape(rest) == spec_escape_char(c) + spec_escape(s@.skip(i + 1)));
        }
        if c == '\\' {
            push_char(&mut out, '\\');
            push_char(&mut out, '\\');
        } else if c == '\n' {
            push_char(&mut out, '\\');
            push_char(&mut out, 'n');
        } else if c == '\t' {
            push_char(&mut out, '\\');
            push_char(&mut out, 't');
        } else if c == '"' {
            push_char(&mut out, '\\');
            push_char(&mut out, '"');
        } else {
            let code = c as u32;
            if code < 32 {
                push_char(&mut out, '\\');
                push_char(&mut out, 'x');
                push_char(&mut out, hex_char((code / 16) as u8));
                push_char(&mut out, hex_char((code % 16) as u8));
            } else {
                push_char(&mut out, c);
            }
        }
        i = i + 1;
        proof {
            assert(spec_escape(s@) =~= out@ + spec_escape(s@.skip(i as int)));
        }
    }
    proof {
        assert(s@.skip(n as int) =~= Seq::<char>::empty());
        assert(out@ =~= spec_escape(s@));
    }
    out
}

/// The value of a hexadecimal digit character, or 16 for any other.
pub(crate) fn hex_val(c: char) -> (v: u8)
    ensures
        v == spec_hex_val(c),
{
    let code = c as u32;
    if 48 <= code && code <= 57 {
        (code - 48) as u8
    } else if 65 <= code && code <= 70 {
        (code - 55) as u8
    } else if 97 <= code && code <= 102 {
        (code - 87) as u8
    } else {
        16
    }
}

/// Unescapes a string; fails on a truncated or unknown escape.
pub fn unescape_string(s: &str) -> (r: Result<String, MtxtError>)
    ensures
        match r {
            Ok(out) => spec_unescape(s@) == Ok::<Seq<char>, MtxtError>(out@),
            Err(e) => spec_unescape(s@) == Err::<Seq<char>, MtxtError>(e),
        },
{
    let n = s.unicode_len();
    let mut out = String::new();
    let mut i: usize = 0;
    proof {
        assert(s@.skip(0) =~= s@);
    }
    while i < n
        invariant
            0 <= i <= n,
            n == s@.len(),
            spec_unescape(s@) == (match spec_unescape(s@.skip(i as int)) {
                Ok(r) => Ok::<Seq<char>, MtxtError>(out@ + r),
                Err(e) => Err::<Seq<char>, MtxtError>(e),
            }),
        decreases n - i,
    {
        let c = s.get_char(i);
        let ghost rest = s@.skip(i as int);
        proof {
            assert(rest.len() > 0);
            assert(rest[0] == s@[i as int]);
            assert(rest.drop_first() =~= s@.skip(i + 1));
        }
        if c != '\\' {
            let ghost out_pre = out@;
            push_char(&mut out, c);
            proof {
                assert(out@ =~= out_pre + seq![c]);
                lemma_unescape_prepend(out_pre, seq![c], s@.skip(i + 1));
            }
            i = i + 1;
        } else {
            if i + 1 >= n {
                return Err(MtxtError::InputParse);
            }
            let e = s.get_char(i + 1);
            proof {
                assert(rest[1] == s@[i + 1]);
            }
            if e == '\\' || e == 'n' || e == 't' || e == '"' {
                let u = if e == '\\' {
                    '\\'
                } else if e == 'n' {
                    '\n'
                } else if e == 't' {
                    '\t'
                } else {
                    '"'
                };
                proof {
                    assert(rest.skip(2) =~= s@.skip(i + 2));
                }
                let ghost out_pre = out@;
                push_char(&mut out, u);
                proof {
                    assert(out@ =~= out_pre + seq![u]);
                    lemma_unescape_prepend(out_pre, seq![u], s@.skip(i + 2));
                }
                i = i + 2;
            } else if e == 'x' {
                if n - i < 4 {
                    return Err(MtxtError::InputParse);
                }
                let h1 = hex_val(s.get_char(i + 2));
                let h2 = hex_val(s.get_char(i + 3));
                proof {
                    assert(rest[2] == s@[i + 2]);
                    assert(rest[3] == s@[i + 3]);
                }
                if h1 >= 16 || h2 >= 16 {
                    return Err(MtxtError::InputParse);
                }
                let code: u8 = h1 * 16 + h2;
                let u = code as char;
                proof {
                    assert(rest.skip(4) =~= s@.skip(i + 4));
                }
                let ghost out_pre = out@;
                push_char(&mut out, u);
                proof {
                    assert(out@ =~= out_pre + seq![u]);
                    lemma_unescape_prepend(out_pre, seq![u], s@.skip(i + 4));
                }
                i = i + 4;
            } else {
                return Err(MtxtError::InputParse);
            }
        }
    }
    proof {
        assert(s@.skip(n as int) =~= Seq::<char>::empty());
        assert(out@ + Seq::<char>::empty() =~= out@);
    }
    Ok(out)
}

/// Regrouping of the decoded prefix: prepending `acc` and then `c` is
/// prepending `acc + c`.
proof fn lemma_unescape_prepend(acc: Seq<char>, c: Seq<char>, rest: Seq<char>)
    ensures
        (match spec_unescape(rest) {
            Ok(r) => Ok::<Seq<char>, MtxtError>(acc + (c + r)),
            Err(e) => Err::<Seq<char>, MtxtError>(e),
        }) == (match spec_unescape(rest) {
            Ok(r) => Ok::<Seq<char>, MtxtError>((acc + c) + r),
            Err(e) => Err::<Seq<char>, MtxtError>(e),
        }),
{
    match spec_unescape(rest) {
        Ok(r) => {
            assert(acc + (c + r) =~= (acc + c) + r);
        },
        Err(e) => {},
    }
}

/// Unescaping an escaped string gives the original back: escaping loses
/// nothing and the escape format is unambiguous.
pub proof fn lemma_unescape_escape(s: Seq<char>)
    ensures
        spec_unescape(spec_escape(s)) == Ok::<Seq<char>, MtxtError>(s),
    decreases s.len(),
{
    if s.len() == 0 {
        assert(spec_escape(s) =~= Seq::<char>::empty());
        assert(spec_unescape(Seq::<char>::empty()) == Ok::<Seq<char>, MtxtError>(Seq::empty()));
        assert(s =~= Seq::<char>::empty());
    } else {
        lemma_unescape_escape(s.drop_first());
        let c = s[0];
        let ec = spec_escape_char(c);
        let rest = spec_escape(s.drop_first());
        let whole = ec + rest;
        assert(spec_escape(s) == whole);
        if c == '\\' || c == '\n' || c == '\t' || c == '"' {
            assert(whole[0] == '\\');
            assert(whole.len() >= 2);
            assert(whole[1] == ec[1]);
            assert(whole.skip(2) =~= rest);
            assert(seq![c] + s.drop_first() =~= s);
            assert(spec_unescape(whole) == Ok::<Seq<char>, MtxtError>(seq![c] + s.drop_first()));
        } else if 0 <= (c as int) < 32 {
            let ci = c as int;
            assert(0 <= ci < 32);
            let d1 = (ci / 16) as nat;
            let d2 = (ci % 16) as nat;
            assert(d1 < 2 && d2 < 16);
            assert(whole[0] == '\\');
            assert(whole.len() >= 4);
            assert(whole[1] == 'x');
            assert(whole[2] == spec_hex_char(d1));
            assert(whole[3] == spec_hex_char(d2));
            assert(spec_hex_char(d1) == ((48 + d1) as u8) as char);
            assert((((48 + d1) as u8) as char) as int == 48 + d1);
            assert(spec_hex_val(spec_hex_char(d1)) == d1);
            if d2 < 10 {
                assert(spec_hex_char(d2) == ((48 + d2) as u8) as char);
                assert((((48 + d2) as u8) as char) as int == 48 + d2);
            } else {
                assert(spec_hex_char(d2) == ((55 + d2) as u8) as char);
                assert((((55 + d2) as u8) as char) as int == 55 + d2);
            }
            assert(spec_hex_val(spec_hex_char(d2)) == d2);
            assert(d1 * 16 + d2 == ci);
            assert(((d1 * 16 + d2) as u8) as int == ci);
            assert(c as u32 as int == ci);
            vstd::utf8::char_u32_cast(c, c as u32);
            assert(((d1 * 16 + d2) as u8) as char == c);
            assert(whole.skip(4) =~= rest);
            assert(seq![c] + s.drop_first() =~= s);
            assert(spec_unescape(whole) == Ok::<Seq<char>, MtxtError>(seq![c] + s.drop_first()));
        } else {
            assert(whole[0] == c);
            assert(c != '\\');
            assert(whole.drop_first() =~= rest);
            assert(seq![c] + s.drop_first() =~= s);
            assert(spec_unescape(whole) == Ok::<Seq<char>, MtxtError>(seq![c] + s.drop_first()));
        }
    }
}

} // verus!
