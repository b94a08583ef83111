//! The textual form of an amount: `[-]<integer>.<4 digits>`, e.g. the scaled
//! integer `123444` encodes as `"12.3444"`. Rendering and parsing are exact
//! inverses for every representable amount, and parsing accepts any plain
//! decimal literal, truncating extra fractional digits toward zero and
//! clamping magnitudes beyond the `i64` range to the nearest extreme.

use crate::currency::{PreciseCurrency, FRACTIONAL_DIGITS};
use vstd::arithmetic::div_mod::lemma_fundamental_div_mod;
use vstd::prelude::*;
use vstd::string::StrSliceExecFns;
use vstd::string::StringExecFns;

verus! {

/// `10 ^ n`.
pub open spec fn pow10(n: nat) -> nat
    decreases n,
{
    if n == 0 {
        1
    } else {
        10 * pow10((n - 1) as nat)
    }
}

/// The decimal digit characters.
pub open spec fn is_digit_char(c: char) -> bool {
    48 <= c as u32 <= 57
}

/// The value of a decimal digit character.
pub open spec fn digit_val(c: char) -> int {
    c as u32 - 48
}

/// The character of a decimal digit.
pub open spec fn digit_char(d: int) -> char {
    if d == 0 {
        '0'
    } else if d == 1 {
        '1'
    } else if d == 2 {
        '2'
    } else if d == 3 {
        '3'
    } else if d == 4 {
        '4'
    } else if d == 5 {
        '5'
    } else if d == 6 {
        '6'
    } else if d == 7 {
        '7'
    } else if d == 8 {
        '8'
    } else {
        '9'
    }
}

/// The decimal digits of `m`, most significant first, without leading zeros
/// (a single `'0'` for zero).
pub open spec fn spec_digits(m: nat) -> Seq<char>
    decreases m,
{
    if m < 10 {
        seq![digit_char(m as int)]
    } else {
        spec_digits(m / 10).push(digit_char((m % 10) as int))
    }
}

/// The low `width` decimal digits of `m`, most significant first, zero-padded
/// to exactly `width` characters.
pub open spec fn spec_digits_fixed(m: nat, width: nat) -> Seq<char>
    decreases width,
{
    if width == 0 {
        Seq::empty()
    } else {
        spec_digits_fixed(m / 10, (width - 1) as nat).push(digit_char((m % 10) as int))
    }
}

/// The canonical rendering of the scaled integer `v`: sign, integer part,
/// `'.'`, then exactly four fractional digits.
pub open spec fn spec_format(v: int) -> Seq<char> {
    let mag = if v < 0 {
        (-v) as nat
    } else {
        v as nat
    };
    let sign: Seq<char> = if v < 0 {
        seq!['-']
    } else {
        Seq::empty()
    };
    let p = pow10(FRACTIONAL_DIGITS as nat);
    sign + spec_digits(mag / p) + seq!['.'] + spec_digits_fixed(mag % p, FRACTIONAL_DIGITS as nat)
}

/// Every character `spec_digits` emits is a decimal digit.
pub proof fn lemma_spec_digits_are_digits(m: nat)
    ensures
        forall|i: int| 0 <= i < spec_digits(m).len() ==> is_digit_char(#[trigger] spec_digits(m)[i]),
        spec_digits(m).len() >= 1,
    decreases m,
{
    if m >= 10 {
        lemma_spec_digits_are_digits(m / 10);
    }
}

/// `spec_digits_fixed` emits exactly `width` characters, all decimal digits.
pub proof fn lemma_spec_digits_fixed_are_digits(m: nat, width: nat)
    ensures
        spec_digits_fixed(m, width).len() == width,
        forall|i: int| 0 <= i < width ==> is_digit_char(#[trigger] spec_digits_fixed(m, width)[i]),
    decreases width,
{
    if width > 0 {
        lemma_spec_digits_fixed_are_digits(m / 10, (width - 1) as nat);
    }
}

impl PreciseCurrency {
    /// Renders this amount as `spec_format` describes.
    pub fn to_decimal_string(&self) -> (r: String)
        ensures
            r@ == spec_format(self@),
    {
        let v = self.raw();
        let neg = v < 0;
        let mag: u64 = if v == i64::MIN {
            9223372036854775808u64
        } else if neg {
            (-v) as u64
        } else {
            v as u64
        };
        proof {
            reveal_with_fuel(pow10, 5);
            assert(pow10(FRACTIONAL_DIGITS as nat) == 10000);
        }
        let ip = mag / 10000;
        let fp = mag % 10000;
        let mut s = String::new();
        if neg {
            s.append("-");
            proof {
                reveal_strlit("-");
                assert(Seq::<char>::empty() + "-"@ =~= seq!['-']);
            }
        }
        push_digits(ip, &mut s);
        s.append(".");
        push_digits_fixed(fp, FRACTIONAL_DIGITS, &mut s);
        proof {
            reveal_strlit(".");
            assert(s@ =~= spec_format(self@));
        }
        s
    }
}

/// Appends the single digit character for `d`.
fn push_digit_char(d: u64, s: &mut String)
    requires
        d < 10,
    ensures
        final(s)@ == old(s)@.push(digit_char(d as int)),
{
    match d {
        0 => {
            s.append("0");
            proof {
                reveal_strlit("0");
                assert(old(s)@ + "0"@ =~= old(s)@.push('0'));
            }
        },
        1 => {
            s.append("1");
            proof {
                reveal_strlit("1");
                assert(old(s)@ + "1"@ =~= old(s)@.push('1'));
            }
        },
        2 => {
            s.append("2");
            proof {
                reveal_strlit("2");
                assert(old(s)@ + "2"@ =~= old(s)@.push('2'));
            }
        },
        3 => {
            s.append("3");
            proof {
                reveal_strlit("3");
                assert(old(s)@ + "3"@ =~= old(s)@.push('3'));
            }
        },
        4 => {
            s.append("4");
            proof {
                reveal_strlit("4");
                assert(old(s)@ + "4"@ =~= old(s)@.push('4'));
            }
        },
        5 => {
            s.append("5");
            proof {
                reveal_strlit("5");
                assert(old(s)@ + "5"@ =~= old(s)@.push('5'));
            }
        },
        6 => {
            s.append("6");
            proof {
                reveal_strlit("6");
                assert(old(s)@ + "6"@ =~= old(s)@.push('6'));
            }
        },
        7 => {
            s.append("7");
            proof {
                reveal_strlit("7");
                assert(old(s)@ + "7"@ =~= old(s)@.push('7'));
            }
        },
        8 => {
            s.append("8");
            proof {
                reveal_strlit("8");
                assert(old(s)@ + "8"@ =~= old(s)@.push('8'));
            }
        },
        _ => {
            s.append("9");
            proof {
                reveal_strlit("9");
                assert(old(s)@ + "9"@ =~= old(s)@.push('9'));
            }
        },
    }
}

/// Appends the decimal digits of `m`, most significant first.
fn push_digits(m: u64, s: &mut String)
    ensures
        final(s)@ == old(s)@ + spec_digits(m as nat),
    decreases m,
{
    if m >= 10 {
        push_digits(m / 10, s);
    }
    push_digit_char(m % 10, s);
    proof {
        if m >= 10 {
            assert((old(s)@ + spec_digits(m as nat / 10)).push(digit_char((m as nat % 10) as int))
                =~= old(s)@ + spec_digits(m as nat));
        } else {
            assert(old(s)@.push(digit_char(m as int)) =~= old(s)@ + spec_digits(m as nat));
        }
    }
}

/// Appends exactly `width` decimal digits: the low `width` digits of `m`,
/// zero-padded on the left.
fn push_digits_fixed(m: u64, width: u32, s: &mut String)
    ensures
        final(s)@ == old(s)@ + spec_digits_fixed(m as nat, width as nat),
    decreases width,
{
    if width == 0 {
        proof {
            assert(old(s)@ + spec_digits_fixed(m as nat, 0) =~= old(s)@);
        }
        return;
    }
    push_digits_fixed(m / 10, width - 1, s);
    push_digit_char(m % 10, s);
    proof {
        assert((old(s)@ + spec_digits_fixed(m as nat / 10, (width - 1) as nat)).push(
            digit_char((m as nat % 10) as int),
        ) =~= old(s)@ + spec_digits_fixed(m as nat, width as nat));
    }
}


/// True when every character of `s` is a decimal digit.
pub open spec fn all_digits(s: Seq<char>) -> bool {
    forall|i: int| 0 <= i < s.len() ==> is_digit_char(#[trigger] s[i])
}

/// The number a digit string denotes, most significant digit first.
pub open spec fn seq_uint(s: Seq<char>) -> int
    decreases s.len(),
{
    if s.len() == 0 {
        0
    } else {
        seq_uint(s.drop_last()) * 10 + digit_val(s.last())
    }
}

/// The index of the first `'.'` in `s`, or `s.len()` if there is none.
pub open spec fn first_dot(s: Seq<char>) -> int
    decreases s.len(),
{
    if s.len() == 0 {
        0
    } else if s[0] == '.' {
        0
    } else {
        1 + first_dot(s.skip(1))
    }
}

/// The scaled value of the fractional digit string `fs`: its first four
/// digits, zero-padded on the right to four (digits past the fourth are
/// truncated away, which rounds the magnitude toward zero).
pub open spec fn frac_scaled(fs: Seq<char>) -> int {
    let n = FRACTIONAL_DIGITS as int;
    if fs.len() >= n {
        seq_uint(fs.take(n))
    } else {
        seq_uint(fs) * pow10((n - fs.len()) as nat)
    }
}

/// `v` clamped to the range of `i64`.
pub open spec fn clamp_i64(v: int) -> int {
    if v > i64::MAX as int {
        i64::MAX as int
    } else if v < i64::MIN as int {
        i64::MIN as int
    } else {
        v
    }
}

/// The scaled magnitude an unsigned decimal literal denotes: the integer
/// part stands before the first `'.'`, the fraction after it; both must be
/// all digits and at least one of them nonempty.
pub open spec fn spec_parse_mag(body: Seq<char>) -> Option<int> {
    let i = first_dot(body);
    let ipart = body.take(i);
    let frac = if i < body.len() {
        body.skip(i + 1)
    } else {
        Seq::<char>::empty()
    };
    if body.len() == 0 || !all_digits(ipart) || !all_digits(frac) || ipart.len() + frac.len() == 0 {
        None
    } else {
        Some(seq_uint(ipart) * pow10(FRACTIONAL_DIGITS as nat) + frac_scaled(frac))
    }
}

/// What parsing a decimal literal yields: an optional sign, then a magnitude
/// as `spec_parse_mag` describes, clamped to the `i64` range.
pub open spec fn spec_parse(s: Seq<char>) -> Option<int> {
    if s.len() == 0 {
        None
    } else {
        let neg = s[0] == '-';
        let body = if s[0] == '-' || s[0] == '+' {
            s.skip(1)
        } else {
            s
        };
        match spec_parse_mag(body) {
            None => None,
            Some(m) => Some(clamp_i64(if neg { -m } else { m })),
        }
    }
}

/// `first_dot` names an actual dot with none before it, or the whole length.
pub proof fn lemma_first_dot(s: Seq<char>)
    ensures
        0 <= first_dot(s) <= s.len(),
        first_dot(s) < s.len() ==> s[first_dot(s)] == '.',
        forall|i: int| 0 <= i < first_dot(s) ==> s[i] != '.',
    decreases s.len(),
{
    if s.len() > 0 && s[0] != '.' {
        lemma_first_dot(s.skip(1));
        assert forall|i: int| 0 <= i < first_dot(s) implies s[i] != '.' by {
            if i > 0 {
                assert(s.skip(1)[i - 1] == s[i]);
            }
        }
    }
}

/// Conversely, the index of a dot with no dot before it is `first_dot`.
pub proof fn lemma_first_dot_at(s: Seq<char>, k: int)
    requires
        0 <= k <= s.len(),
        forall|i: int| 0 <= i < k ==> s[i] != '.',
        k < s.len() ==> s[k] == '.',
    ensures
        first_dot(s) == k,
    decreases s.len(),
{
    if s.len() > 0 && s[0] != '.' {
        assert(k >= 1);
        lemma_first_dot_at(s.skip(1), k - 1);
    }
}

/// A digit string denotes a nonnegative number below `10 ^ length`.
pub proof fn lemma_seq_uint_bounds(s: Seq<char>)
    requires
        all_digits(s),
    ensures
        0 <= seq_uint(s) < pow10(s.len()),
    decreases s.len(),
{
    if s.len() > 0 {
        assert(forall|i: int| 0 <= i < s.drop_last().len() ==> is_digit_char(
            #[trigger] s.drop_last()[i],
        ));
        lemma_seq_uint_bounds(s.drop_last());
    }
}

/// Reading back the digits of `m` yields `m`.
pub proof fn lemma_seq_uint_digits(m: nat)
    ensures
        seq_uint(spec_digits(m)) == m,
    decreases m,
{
    if m < 10 {
        let s1 = seq![digit_char(m as int)];
        assert(spec_digits(m) == s1);
        assert(s1.len() == 1);
        assert(s1.drop_last() =~= Seq::<char>::empty());
        assert(s1.last() == digit_char(m as int));
        assert(seq_uint(Seq::<char>::empty()) == 0);
        assert(seq_uint(s1) == seq_uint(s1.drop_last()) * 10 + digit_val(s1.last()));
        assert(digit_val(digit_char(m as int)) == m);
    } else {
        lemma_seq_uint_digits(m / 10);
        let s1 = spec_digits(m / 10).push(digit_char((m % 10) as int));
        assert(spec_digits(m) == s1);
        assert(s1.drop_last() =~= spec_digits(m / 10));
        assert(s1.last() == digit_char((m % 10) as int));
        assert(seq_uint(s1) == seq_uint(s1.drop_last()) * 10 + digit_val(s1.last()));
        assert(digit_val(digit_char((m % 10) as int)) == m % 10);
        lemma_fundamental_div_mod(m as int, 10);
    }
}

/// Reading back the `width` fixed digits of `m < 10 ^ width` yields `m`.
pub proof fn lemma_seq_uint_digits_fixed(m: nat, width: nat)
    requires
        m < pow10(width),
    ensures
        seq_uint(spec_digits_fixed(m, width)) == m,
    decreases width,
{
    if width == 0 {
    } else {
        assert(pow10(width) == 10 * pow10((width - 1) as nat));
        assert(m / 10 < pow10((width - 1) as nat)) by {
            lemma_fundamental_div_mod(m as int, 10);
        }
        lemma_seq_uint_digits_fixed(m / 10, (width - 1) as nat);
        assert(spec_digits_fixed(m / 10, (width - 1) as nat).push(
            digit_char((m % 10) as int),
        ).drop_last() =~= spec_digits_fixed(m / 10, (width - 1) as nat));
        lemma_fundamental_div_mod(m as int, 10);
    }
}

pub proof fn lemma_parse_format_round_trip(v: i64)
    ensures
        (spec_parse(spec_format(v as int)) == Some(v as int)),
{
    reveal_with_fuel(pow10, 5);
    let vi: int = v as int;
    let mag: nat = if vi < 0 {
        (-vi) as nat
    } else {
        vi as nat
    };
    let ip: nat = mag / 10000;
    let fp: nat = mag % 10000;
    let a = spec_digits(ip);
    let b = spec_digits_fixed(fp, FRACTIONAL_DIGITS as nat);
    lemma_spec_digits_are_digits(ip);
    lemma_spec_digits_fixed_are_digits(fp, FRACTIONAL_DIGITS as nat);
    let body = a + seq!['.'] + b;
    let s = spec_format(vi);
    assert(s == (if vi < 0 { seq!['-'] } else { Seq::<char>::empty() }) + a + seq!['.'] + b);
    if vi < 0 {
        assert(s.skip(1) =~= body);
        assert(s[0] == '-');
    } else {
        assert(s =~= body);
        assert(s[0] == a[0]);
        assert(is_digit_char(a[0]));
        assert(s[0] != '-' && s[0] != '+');
    }
    assert(body.len() > 0);
    assert(forall|i: int| 0 <= i < a.len() ==> body[i] == a[i]);
    assert(body[a.len() as int] == '.');
    lemma_first_dot_at(body, a.len() as int);
    assert(body.take(a.len() as int) =~= a);
    assert(body.skip(a.len() as int + 1) =~= b);
    assert(all_digits(a));
    assert(all_digits(b));
    lemma_seq_uint_digits(ip);
    lemma_fundamental_div_mod(mag as int, 10000);
    lemma_seq_uint_digits_fixed(fp, FRACTIONAL_DIGITS as nat);
    assert(b.take(FRACTIONAL_DIGITS as int) =~= b);
    assert(frac_scaled(b) == fp);
    assert(spec_parse_mag(body) == Some((ip * 10000 + fp) as int));
    assert(ip * 10000 + fp == mag);
    if vi < 0 {
        assert(spec_parse(s) == Some(clamp_i64(-(mag as int))));
        assert(clamp_i64(-(mag as int)) == vi);
    } else {
        assert(spec_parse(s) == Some(clamp_i64(mag as int)));
        assert(clamp_i64(mag as int) == vi);
    }
}

/// `2^64`: the integer-part accumulator saturates here; any magnitude at or
/// beyond it lies far outside the representable range either way.
spec fn acc_cap() -> int {
    0x1_0000_0000_0000_0000
}

/// `seq_uint` clamped at `acc_cap`.
spec fn capped_uint(s: Seq<char>) -> int {
    if seq_uint(s) >= acc_cap() {
        acc_cap()
    } else {
        seq_uint(s)
    }
}

/// The decimal digit the character denotes, if any.
fn digit_of(c: char) -> (r: Option<u64>)
    ensures
        r is Some ==> is_digit_char(c) && r.unwrap() as int == digit_val(c),
        r is None ==> !is_digit_char(c),
{
    match c {
        '0' => Some(0),
        '1' => Some(1),
        '2' => Some(2),
        '3' => Some(3),
        '4' => Some(4),
        '5' => Some(5),
        '6' => Some(6),
        '7' => Some(7),
        '8' => Some(8),
        '9' => Some(9),
        _ => None,
    }
}

impl PreciseCurrency {
    /// Parses a decimal literal exactly as `spec_parse` describes: `None` on
    /// malformed text, otherwise the scaled value with extra fractional
    /// digits truncated toward zero and out-of-range magnitudes clamped.
    #[verifier::rlimit(100)]
    pub fn from_decimal_str(s: &str) -> (r: Option<PreciseCurrency>)
        ensures
            match r {
                Some(c) => spec_parse(s@) == (Some(c@)),
                None => spec_parse(s@) is None,
            },
    {
        proof {
            reveal_with_fuel(pow10, 5);
        }
        let len = s.unicode_len();
        if len == 0 {
            return None;
        }
        let first = s.get_char(0);
        let neg = first == '-';
        let start: usize = if first == '-' || first == '+' {
            1
        } else {
            0
        };
        let ghost body = if start == 1 {
            s@.skip(1)
        } else {
            s@
        };
        if start == len {
            return None;
        }
        let mut int_acc: u128 = 0;
        let mut frac_acc: u64 = 0;
        let mut frac_taken: u32 = 0;
        let mut dot_pos: usize = 0;
        let mut seen_dot = false;
        let mut k = start;
        while k < len
            invariant
                len == s@.len(),
                start <= k <= len,
                start <= 1,
                start < len,
                neg == (s@[0] == '-'),
                (start == 1) <==> (s@[0] == '-' || s@[0] == '+'),
                body == (if start == 1 { s@.skip(1) } else { s@ }),
                int_acc <= 18446744073709551616u128,
                frac_taken <= FRACTIONAL_DIGITS,
                !seen_dot ==> forall|i: int| start <= i < k ==> is_digit_char(#[trigger] s@[i]),
                !seen_dot ==> int_acc as int == capped_uint(
                    s@.subrange(start as int, k as int),
                ),
                !seen_dot ==> frac_acc == 0 && frac_taken == 0,
                seen_dot ==> start <= dot_pos < k && s@[dot_pos as int] == '.',
                seen_dot ==> forall|i: int| start <= i < dot_pos ==> is_digit_char(
                    #[trigger] s@[i],
                ),
                seen_dot ==> forall|i: int| dot_pos < i < k ==> is_digit_char(#[trigger] s@[i]),
                seen_dot ==> int_acc as int == capped_uint(
                    s@.subrange(start as int, dot_pos as int),
                ),
                (seen_dot && k as int - dot_pos as int - 1 >= FRACTIONAL_DIGITS as int)
                    ==> frac_taken == FRACTIONAL_DIGITS,
                (seen_dot && k as int - dot_pos as int - 1 < FRACTIONAL_DIGITS as int)
                    ==> frac_taken as int == k as int - dot_pos as int - 1,
                seen_dot ==> frac_acc as int == seq_uint(
                    s@.subrange(dot_pos as int + 1, k as int).take(frac_taken as int),
                ),
                (frac_acc as int) < pow10(frac_taken as nat),
            decreases len - k,
        {
            let c = s.get_char(k);
            if c == '.' && !seen_dot {
                seen_dot = true;
                dot_pos = k;
                proof {
                    assert(s@.subrange(dot_pos as int + 1, k as int + 1).take(0)
                        =~= Seq::<char>::empty());
                }
            } else {
                match digit_of(c) {
                    Some(d) => {
                        if !seen_dot {
                            proof {
                                let pfx = s@.subrange(start as int, k as int);
                                let pfx1 = s@.subrange(start as int, k as int + 1);
                                assert(pfx1.drop_last() =~= pfx);
                                assert(pfx1.last() == s@[k as int]);
                                assert(forall|i: int| 0 <= i < pfx.len()
                                    ==> is_digit_char(#[trigger] pfx[i]));
                                lemma_seq_uint_bounds(pfx);
                            }
                            let c128: u128 = int_acc * 10 + d as u128;
                            int_acc = if c128 >= 18446744073709551616u128 {
                                18446744073709551616u128
                            } else {
                                c128
                            };
                        } else {
                            if frac_taken < FRACTIONAL_DIGITS {
                                proof {
                                    reveal_with_fuel(pow10, 5);
                                    let fr = s@.subrange(dot_pos as int + 1, k as int);
                                    let fr1 = s@.subrange(dot_pos as int + 1, k as int + 1);
                                    assert(frac_taken as int == k as int - dot_pos - 1);
                                    assert(fr1.take(frac_taken as int + 1) =~= fr1);
                                    assert(fr1.drop_last() =~= fr);
                                    assert(fr.take(frac_taken as int) =~= fr);
                                    assert(fr1.last() == s@[k as int]);
                                }
                                frac_acc = frac_acc * 10 + d;
                                frac_taken = frac_taken + 1;
                            } else {
                                proof {
                                    assert(s@.subrange(dot_pos as int + 1, k as int + 1).take(
                                        frac_taken as int,
                                    ) =~= s@.subrange(dot_pos as int + 1, k as int).take(
                                        frac_taken as int,
                                    ));
                                }
                            }
                        }
                    },
                    None => {
                        proof {
                            lemma_parse_fails_at(s@, body, start as int, k as int,
                                seen_dot, dot_pos as int);
                        }
                        return None;
                    },
                }
            }
            k += 1;
        }
        if seen_dot && dot_pos == start && dot_pos + 1 == len {
            proof {
                lemma_first_dot_at(body, 0);
                assert(body.take(0) =~= Seq::<char>::empty());
                assert(body.skip(1) =~= Seq::<char>::empty());
            }
            return None;
        }
        let diff: u32 = FRACTIONAL_DIGITS - frac_taken;
        let mult: u64 = if diff == 0 {
            1
        } else if diff == 1 {
            10
        } else if diff == 2 {
            100
        } else if diff == 3 {
            1000
        } else {
            10000
        };
        proof {
            reveal_with_fuel(pow10, 5);
            assert(mult as int == pow10(diff as nat));
            assert((frac_acc as int) * (mult as int) < 10000) by {
                if frac_taken == 0 {
                } else if frac_taken == 1 {
                } else if frac_taken == 2 {
                } else if frac_taken == 3 {
                }
            }
        }
        let frac_total: u64 = frac_acc * mult;
        let mag128: u128 = int_acc * 10000 + frac_total as u128;
        proof {
            lemma_parse_final(
                s@,
                body,
                start as int,
                len as int,
                seen_dot,
                dot_pos as int,
                int_acc as int,
                frac_acc as int,
                frac_taken as int,
                mult as int,
                mag128 as int,
            );
        }
        let out: i64 = if neg {
            if mag128 >= 9223372036854775808u128 {
                i64::MIN
            } else {
                -(mag128 as i64)
            }
        } else {
            if mag128 >= 9223372036854775808u128 {
                i64::MAX
            } else {
                mag128 as i64
            }
        };
        Some(PreciseCurrency::from_raw(out))
    }
}

/// A character that is neither a digit nor the first dot makes the whole
/// literal malformed, wherever the dot ends up.
proof fn lemma_parse_fails_at(
    s: Seq<char>,
    body: Seq<char>,
    start: int,
    k: int,
    seen_dot: bool,
    dot_pos: int,
)
    requires
        s.len() > 0,
        0 <= start <= 1,
        start <= k < s.len(),
        body == (if start == 1 { s.skip(1) } else { s }),
        (start == 1) <==> (s[0] == '-' || s[0] == '+'),
        !is_digit_char(s[k]),
        !seen_dot ==> forall|i: int| start <= i < k ==> is_digit_char(#[trigger] s[i]),
        !seen_dot ==> s[k] != '.',
        seen_dot ==> start <= dot_pos < k && s[dot_pos] == '.',
        seen_dot ==> forall|i: int| start <= i < dot_pos ==> is_digit_char(#[trigger] s[i]),
    ensures
        spec_parse(s) is None,
{
    lemma_first_dot(body);
    let fd = first_dot(body);
    if seen_dot {
        assert forall|i: int| 0 <= i < dot_pos - start implies body[i] != '.' by {
            assert(is_digit_char(s[i + start]));
        }
        lemma_first_dot_at(body, dot_pos - start);
        let frac = body.skip(fd + 1);
        assert(frac[k - start - fd - 1] == s[k]);
        assert(!all_digits(frac));
    } else {
        assert forall|i: int| 0 <= i < k - start implies body[i] != '.' by {
            assert(is_digit_char(s[i + start]));
        }
        if fd < k - start {
            assert(body[fd] == '.');
            assert(false);
        }
        if fd == k - start {
            assert(body[fd] == s[k]);
            assert(body[fd] != '.');
            assert(fd < body.len());
            assert(false);
        }
        let ipart = body.take(fd);
        assert(ipart[k - start] == s[k]);
        assert(!all_digits(ipart));
    }
}

/// Ties the scanner's accumulators, at the end of the text, to the magnitude
/// `spec_parse_mag` denotes: below `2^63` they agree exactly, and at or past
/// `2^63` they lie on the same side of that threshold.
#[verifier::rlimit(60)]
proof fn lemma_parse_final(
    s: Seq<char>,
    body: Seq<char>,
    start: int,
    len: int,
    seen_dot: bool,
    dot_pos: int,
    int_acc: int,
    frac_acc: int,
    frac_taken: int,
    mult: int,
    mag128: int,
)
    requires
        len == s.len(),
        0 <= start <= 1,
        start < len,
        body == (if start == 1 { s.skip(1) } else { s }),
        0 <= int_acc <= 0x1_0000_0000_0000_0000,
        0 <= frac_taken <= FRACTIONAL_DIGITS as int,
        mult == pow10((FRACTIONAL_DIGITS as int - frac_taken) as nat),
        0 <= frac_acc,
        frac_acc < pow10(frac_taken as nat),
        mag128 == int_acc * 10000 + frac_acc * mult,
        !seen_dot ==> forall|i: int| start <= i < len ==> is_digit_char(#[trigger] s[i]),
        !seen_dot ==> int_acc == capped_uint(s.subrange(start, len)),
        !seen_dot ==> frac_acc == 0 && frac_taken == 0,
        seen_dot ==> start <= dot_pos < len && s[dot_pos] == '.',
        seen_dot ==> forall|i: int| start <= i < dot_pos ==> is_digit_char(#[trigger] s[i]),
        seen_dot ==> forall|i: int| dot_pos < i < len ==> is_digit_char(#[trigger] s[i]),
        seen_dot ==> int_acc == capped_uint(s.subrange(start, dot_pos)),
        (seen_dot && len - dot_pos - 1 >= FRACTIONAL_DIGITS as int) ==> frac_taken
            == FRACTIONAL_DIGITS as int,
        (seen_dot && len - dot_pos - 1 < FRACTIONAL_DIGITS as int) ==> frac_taken == len - dot_pos
            - 1,
        seen_dot ==> frac_acc == seq_uint(s.subrange(dot_pos + 1, len).take(frac_taken)),
        !(seen_dot && dot_pos == start && dot_pos + 1 == len),
    ensures
        spec_parse_mag(body) is Some,
        spec_parse_mag(body).unwrap() >= 0,
        (spec_parse_mag(body).unwrap() >= 0x8000_0000_0000_0000) == (mag128
            >= 0x8000_0000_0000_0000),
        mag128 < 0x8000_0000_0000_0000 ==> spec_parse_mag(body).unwrap() == mag128,
{
    reveal_with_fuel(pow10, 5);
    let fd: int = if seen_dot {
        dot_pos - start
    } else {
        body.len() as int
    };
    let ipart = body.take(fd);
    let frac: Seq<char> = if fd < body.len() {
        body.skip(fd + 1)
    } else {
        Seq::<char>::empty()
    };
    if seen_dot {
        assert forall|i: int| 0 <= i < fd implies body[i] != '.' by {
            assert(is_digit_char(s[i + start]));
        }
        lemma_first_dot_at(body, fd);
        assert(ipart =~= s.subrange(start, dot_pos));
        assert(frac =~= s.subrange(dot_pos + 1, len));
    } else {
        assert forall|i: int| 0 <= i < body.len() implies body[i] != '.' by {
            assert(is_digit_char(s[i + start]));
        }
        lemma_first_dot_at(body, body.len() as int);
        assert(ipart =~= body);
        assert(ipart =~= s.subrange(start, len));
        assert(frac =~= Seq::<char>::empty());
    }
    assert(all_digits(ipart));
    assert(all_digits(frac));
    assert(ipart.len() + frac.len() > 0);
    lemma_seq_uint_bounds(ipart);
    lemma_seq_uint_bounds(frac);
    let u = seq_uint(ipart);
    let fs = frac_scaled(frac);
    if seen_dot {
        if frac.len() >= FRACTIONAL_DIGITS as int {
            assert(frac_taken == FRACTIONAL_DIGITS as int);
            assert(frac.take(FRACTIONAL_DIGITS as int) =~= s.subrange(dot_pos + 1, len).take(
                frac_taken,
            ));
            assert(fs == seq_uint(frac.take(FRACTIONAL_DIGITS as int)));
            assert(fs == frac_acc);
            assert(mult == pow10(0));
            assert(mult == 1);
            assert(frac_acc * mult == frac_acc * 1);
            assert(frac_acc * 1 == frac_acc);
            assert(fs == frac_acc * mult);
        } else {
            assert(frac_taken == frac.len());
            assert(frac.take(frac_taken) =~= frac);
            assert(fs == seq_uint(frac) * pow10((FRACTIONAL_DIGITS as int - frac_taken) as nat));
            assert(fs == frac_acc * mult);
        }
    } else {
        assert(fs == 0);
        assert(fs == frac_acc * mult);
    }
    assert(0 <= fs < 10000) by {
        if frac_taken == 0 {
            assert(frac_acc < 1);
            assert(mult == 10000);
            assert(frac_acc * mult == 0);
        } else if frac_taken == 1 {
            assert(frac_acc < 10);
            assert(mult == 1000);
            assert(frac_acc * mult == frac_acc * 1000);
            assert(0 <= frac_acc * 1000 < 10000);
        } else if frac_taken == 2 {
            assert(frac_acc < 100);
            assert(mult == 100);
            assert(frac_acc * mult == frac_acc * 100);
            assert(0 <= frac_acc * 100 < 10000);
        } else if frac_taken == 3 {
            assert(frac_acc < 1000);
            assert(mult == 10);
            assert(frac_acc * mult == frac_acc * 10);
            assert(0 <= frac_acc * 10 < 10000);
        } else {
            assert(frac_taken == 4);
            assert(frac_acc < 10000);
            assert(mult == 1);
            assert(frac_acc * mult == frac_acc * 1);
            assert(0 <= frac_acc * 1 < 10000);
        }
    }
    assert(spec_parse_mag(body) == (Some(u * 10000 + fs)));
    if u >= acc_cap() {
        assert(u * 10000 >= acc_cap() * 10000);
        assert(int_acc == acc_cap());
        assert(mag128 >= 0x8000_0000_0000_0000);
        assert(u * 10000 + fs >= 0x8000_0000_0000_0000);
    } else {
        assert(int_acc == u);
        assert(mag128 == u * 10000 + fs);
    }
}

} // verus!
