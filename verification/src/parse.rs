//! Parsing a 32-bit value from hexadecimal text: every leading `0x` marker is
//! stripped, an optional sign is accepted, and any malformed, negative or
//! overflowing input yields zero.

use vstd::prelude::*;

verus! {

/// The character is a hexadecimal digit.
pub open spec fn is_hex_digit(c: char) -> bool {
    (48 <= c as u32 <= 57) || (97 <= c as u32 <= 102) || (65 <= c as u32 <= 70)
}

/// The numeric value of a hexadecimal digit.
pub open spec fn hex_val(c: char) -> int {
    if 48 <= c as u32 <= 57 {
        c as u32 - 48
    } else if 97 <= c as u32 <= 102 {
        c as u32 - 87
    } else {
        c as u32 - 55
    }
}

/// Every character is a hexadecimal digit.
pub open spec fn all_hex(s: Seq<char>) -> bool {
    forall|k: int| 0 <= k < s.len() ==> is_hex_digit(#[trigger] s[k])
}

/// The unbounded value of a hexadecimal digit string, most significant digit
/// first.
pub open spec fn hex_value(s: Seq<char>) -> int
    decreases s.len(),
{
    if s.len() == 0 {
        0
    } else {
        hex_value(s.drop_last()) * 16 + hex_val(s.last())
    }
}

/// The text with every leading `0x` marker removed.
pub open spec fn strip_0x(s: Seq<char>) -> Seq<char>
    decreases s.len(),
{
    if s.len() >= 2 && s[0] == '0' && s[1] == 'x' {
        strip_0x(s.skip(2))
    } else {
        s
    }
}

/// What parsing hexadecimal text yields: after stripping `0x` markers and an
/// optional sign, the digit string's value if it is nonempty, all
/// hexadecimal, not negated and within 32 bits; zero otherwise.
pub open spec fn parse_dword_spec(s: Seq<char>) -> u32 {
    let t = strip_0x(s);
    let has_sign = t.len() > 0 && (t[0] == '+' || t[0] == '-');
    let digits = if has_sign {
        t.skip(1)
    } else {
        t
    };
    let neg = t.len() > 0 && t[0] == '-';
    if digits.len() > 0 && all_hex(digits) && hex_value(digits) <= u32::MAX && !neg {
        hex_value(digits) as u32
    } else {
        0
    }
}

/// The value of a digit string is nonnegative when every digit is
/// hexadecimal.
pub proof fn lemma_hex_value_nonneg(s: Seq<char>)
    requires
        all_hex(s),
    ensures
        hex_value(s) >= 0,
    decreases s.len(),
{
    if s.len() > 0 {
        assert(all_hex(s.drop_last())) by {
            assert(forall|k: int| 0 <= k < s.len() - 1 ==> s.drop_last()[k] == s[k]);
        }
        lemma_hex_value_nonneg(s.drop_last());
    }
}

/// Extending a hexadecimal digit string never shrinks its value.
pub proof fn lemma_hex_value_mono(s: Seq<char>, m: int)
    requires
        all_hex(s),
        0 <= m <= s.len(),
    ensures
        hex_value(s) >= hex_value(s.take(m)),
    decreases s.len() - m,
{
    if m < s.len() {
        assert(all_hex(s.drop_last())) by {
            assert(forall|k: int| 0 <= k < s.len() - 1 ==> s.drop_last()[k] == s[k]);
        }
        assert(s.drop_last().take(m) =~= s.take(m));
        lemma_hex_value_mono(s.drop_last(), m);
        lemma_hex_value_nonneg(s.drop_last());
        assert(hex_value(s) == hex_value(s.drop_last()) * 16 + hex_val(s.last()));
        assert(hex_value(s.drop_last()) * 16 >= hex_value(s.drop_last())) by (nonlinear_arith)
            requires
                hex_value(s.drop_last()) >= 0,
        ;
    } else {
        assert(s.take(m) =~= s);
    }
}

/// Parse hexadecimal text to a 32-bit value: leading `0x` markers and an
/// optional sign are accepted, and malformed, negative or overflowing input
/// yields zero.
pub fn parse_dword(s: &str) -> (r: u32)
    ensures
        r == parse_dword_spec(s@),
{
    let slen = s.unicode_len();
    let mut pos: usize = 0;
    proof {
        assert(s@.skip(0) =~= s@);
    }
    while slen - pos > 1 && s.get_char(pos) == '0' && s.get_char(pos + 1) == 'x'
        invariant
            pos <= slen,
            slen == s@.len(),
            strip_0x(s@) == strip_0x(s@.skip(pos as int)),
        decreases slen - pos,
    {
        proof {
            assert(s@.skip(pos as int).skip(2) =~= s@.skip(pos as int + 2));
        }
        pos = pos + 2;
    }
    let ghost t = s@.skip(pos as int);
    proof {
        assert(strip_0x(s@) == t);
    }
    let mut neg = false;
    let mut dstart = pos;
    if pos < slen {
        let c0 = s.get_char(pos);
        if c0 == '+' {
            dstart = pos + 1;
        } else if c0 == '-' {
            neg = true;
            dstart = pos + 1;
        }
    }
    let ghost digits = s@.skip(dstart as int);
    proof {
        if pos < slen && (s@[pos as int] == '+' || s@[pos as int] == '-') {
            assert(t.skip(1) =~= s@.skip(pos as int + 1));
            assert(digits == t.skip(1));
        } else {
            assert(digits == t);
        }
    }
    if dstart == slen {
        return 0;
    }
    let mut acc: u32 = 0;
    let mut ok = true;
    let mut k = dstart;
    while k < slen
        invariant
            dstart <= k <= slen,
            slen == s@.len(),
            dstart < slen,
            digits == s@.skip(dstart as int),
            ok ==> all_hex(digits.take(k - dstart)) && hex_value(digits.take(k - dstart))
                == acc as int,
            !ok ==> !all_hex(digits) || (all_hex(digits) && hex_value(digits) > u32::MAX),
        decreases slen - k,
    {
        let c = s.get_char(k);
        proof {
            assert(digits[k - dstart] == c);
        }
        if ok {
            let cv = c as u32;
            let mut d: u32 = 0;
            let mut hex = true;
            if cv >= 48 && cv <= 57 {
                d = cv - 48;
            } else if cv >= 97 && cv <= 102 {
                d = cv - 87;
            } else if cv >= 65 && cv <= 70 {
                d = cv - 55;
            } else {
                hex = false;
            }
            if !hex {
                ok = false;
                proof {
                    assert(!is_hex_digit(digits[k - dstart]));
                }
            } else {
                proof {
                    assert(is_hex_digit(c));
                    assert(d as int == hex_val(c));
                }
                if acc > (u32::MAX - d) / 16 {
                    ok = false;
                    proof {
                        let m = k - dstart;
                        assert(digits.take(m + 1).drop_last() =~= digits.take(m));
                        assert(digits.take(m + 1).last() == c);
                        assert(forall|z: int|
                            0 <= z < m + 1 ==> #[trigger] digits.take(m + 1)[z] == digits[z]);
                        assert(all_hex(digits.take(m + 1)));
                        assert(hex_value(digits.take(m + 1)) == acc as int * 16 + d as int);
                        assert(acc as int * 16 + d as int > u32::MAX) by (nonlinear_arith)
                            requires
                                acc as int > ((u32::MAX - d) as int) / 16,
                                0 <= d <= 15,
                                acc as int <= u32::MAX,
                        ;
                        if all_hex(digits) {
                            lemma_hex_value_mono(digits, m + 1);
                        }
                    }
                } else {
                    proof {
                        assert(acc as int * 16 + d as int <= u32::MAX) by (nonlinear_arith)
                            requires
                                acc as int <= ((u32::MAX - d) as int) / 16,
                                0 <= d <= 15,
                        ;
                        let m = k - dstart;
                        assert(digits.take(m + 1).drop_last() =~= digits.take(m));
                        assert(digits.take(m + 1).last() == c);
                        assert(forall|z: int|
                            0 <= z < m + 1 ==> #[trigger] digits.take(m + 1)[z] == digits[z]);
                        assert(all_hex(digits.take(m + 1)));
                        assert(hex_value(digits.take(m + 1)) == acc as int * 16 + d as int);
                    }
                    acc = acc * 16 + d;
                }
            }
        }
        k = k + 1;
    }
    proof {
        assert(digits.take(slen - dstart) =~= digits);
    }
    if ok && !neg {
        proof {
            assert(parse_dword_spec(s@) == acc);
        }
        acc
    } else {
        proof {
            assert(parse_dword_spec(s@) == 0);
        }
        0
    }
}

} // verus!
