//! Decimal number texts and fixed-point values.
//!
//! Coordinates and sensor readings are carried as fixed-point values:
//! an `i64` count of 1e-7-degree (or 1e-7-unit) steps, the resolution
//! of the validator's near-origin epsilon. A decimal text is parsed
//! exactly, truncating fractional digits beyond the seventh; a value is
//! formatted back as the shortest decimal text (no trailing fractional
//! zeros, no fractional part when it is zero).

use vstd::prelude::*;

use crate::errors::ParseError;

verus! {

use crate::epoch::is_digit;
use crate::epoch::digit_val;

/// Steps per whole unit: the fixed-point scale.
pub const SCALE: i64 = 10000000;

/// Every byte of `s` is an ASCII decimal digit.
pub open spec fn all_digits(s: Seq<u8>) -> bool {
    forall|k: int| 0 <= k < s.len() ==> is_digit(s[k])
}

/// Value of a (possibly empty) digit string, most significant first.
pub open spec fn digits_val(s: Seq<u8>) -> int
    decreases s.len(),
{
    if s.len() == 0 {
        0
    } else {
        digits_val(s.drop_last()) * 10 + digit_val(s.last())
    }
}

/// Ten to the `k`-th power.
pub open spec fn pow10(k: int) -> int
    decreases k,
{
    if k <= 0 {
        1
    } else {
        10 * pow10(k - 1)
    }
}

pub proof fn lemma_digits_val_bound(s: Seq<u8>)
    requires
        all_digits(s),
    ensures
        0 <= digits_val(s) < pow10(s.len() as int),
    decreases s.len(),
{
    if s.len() > 0 {
        assert(all_digits(s.drop_last())) by {
            assert(forall|k: int|
                0 <= k < s.len() - 1 ==> s.drop_last()[k] == s[k] && is_digit(s[k]));
        }
        lemma_digits_val_bound(s.drop_last());
        assert(is_digit(s.last())) by {
            assert(s.last() == s[s.len() - 1]);
        }
    }
}

/// `s` starts with an explicit sign byte.
pub open spec fn has_sign(s: Seq<u8>) -> bool {
    s.len() > 0 && (s[0] == ('+' as u8) || s[0] == ('-' as u8))
}

/// `s` without its sign byte, if any.
pub open spec fn body_of(s: Seq<u8>) -> Seq<u8> {
    if has_sign(s) {
        s.drop_first()
    } else {
        s
    }
}

/// The sign of the number text: `-1` under a leading minus, else `1`.
pub open spec fn sign_of(s: Seq<u8>) -> int {
    if s.len() > 0 && s[0] == ('-' as u8) {
        -1
    } else {
        1
    }
}

/// `s` is an integer text: an optional sign, then one or more digits.
pub open spec fn int_text(s: Seq<u8>) -> bool {
    body_of(s).len() > 0 && all_digits(body_of(s))
}

/// The value named by an integer text.
pub open spec fn int_text_val(s: Seq<u8>) -> int {
    sign_of(s) * digits_val(body_of(s))
}

/// Index of the first `.` at or after `i`, if any.
pub open spec fn first_dot_from(s: Seq<u8>, i: int) -> Option<int>
    decreases s.len() - i,
{
    if i < 0 || i >= s.len() {
        None
    } else if s[i] == ('.' as u8) {
        Some(i)
    } else {
        first_dot_from(s, i + 1)
    }
}

/// `s` is a plain decimal text: an optional sign, then digits with at
/// most one decimal point somewhere among them, and at least one digit.
/// This is the decimal subset of Rust's float grammar: no exponent, no
/// infinity, no NaN.
pub open spec fn fixed_text(s: Seq<u8>) -> bool {
    let b = body_of(s);
    match first_dot_from(b, 0) {
        None => b.len() > 0 && all_digits(b),
        Some(j) => b.len() > 1 && all_digits(b.subrange(0, j)) && all_digits(
            b.subrange(j + 1, b.len() as int),
        ),
    }
}

/// Fixed-point contribution of a fractional digit string, truncated to
/// seven places.
pub open spec fn frac_val7(f: Seq<u8>) -> int {
    if f.len() <= 7 {
        digits_val(f) * pow10(7 - f.len())
    } else {
        digits_val(f.subrange(0, 7))
    }
}

/// The fixed-point value named by a decimal text, in 1e-7 steps.
pub open spec fn fixed_val(s: Seq<u8>) -> int {
    let b = body_of(s);
    match first_dot_from(b, 0) {
        None => sign_of(s) * digits_val(b) * 10000000,
        Some(j) => sign_of(s) * (digits_val(b.subrange(0, j)) * 10000000 + frac_val7(
            b.subrange(j + 1, b.len() as int),
        )),
    }
}

/// Scan `s[from..to]`: `None` when some byte is not a digit; otherwise
/// the digit string's value, saturated at 2^64.
fn scan_digits(s: &[u8], from: usize, to: usize) -> (r: Option<u128>)
    requires
        from <= to <= s@.len(),
    ensures
        ({
            let sub = s@.subrange(from as int, to as int);
            match r {
                None => !all_digits(sub),
                Some(acc) => {
                    &&& all_digits(sub)
                    &&& digits_val(sub) < 0x10000000000000000 ==> acc == digits_val(sub)
                    &&& digits_val(sub) >= 0x10000000000000000 ==> acc == 0x10000000000000000
                },
            }
        }),
{
    let mut acc: u128 = 0;
    let mut i: usize = from;
    while i < to
        invariant
            from <= i <= to <= s@.len(),
            all_digits(s@.subrange(from as int, i as int)),
            digits_val(s@.subrange(from as int, i as int)) < 0x10000000000000000 ==> acc
                == digits_val(s@.subrange(from as int, i as int)),
            digits_val(s@.subrange(from as int, i as int)) >= 0x10000000000000000 ==> acc
                == 0x10000000000000000,
            acc <= 0x10000000000000000,
        decreases to - i,
    {
        let ghost pref = s@.subrange(from as int, i as int);
        let ghost next = s@.subrange(from as int, i as int + 1);
        proof {
            assert(next.drop_last() =~= pref);
            assert(next.last() == s@[i as int]);
            lemma_digits_val_bound_weak(pref);
        }
        let b = s[i];
        if !(('0' as u8) <= b && b <= ('9' as u8)) {
            proof {
                assert(s@.subrange(from as int, to as int)[i - from] == b);
            }
            return None;
        }
        let d = (b - ('0' as u8)) as u128;
        let t = acc * 10 + d;
        acc = if t > 0x10000000000000000 {
            0x10000000000000000
        } else {
            t
        };
        i = i + 1;
        proof {
            assert(forall|k: int| 0 <= k < next.len() ==> is_digit(next[k]));
        }
    }
    proof {
        assert(s@.subrange(from as int, to as int) =~= s@.subrange(from as int, i as int));
    }
    Some(acc)
}

proof fn lemma_digits_val_bound_weak(s: Seq<u8>)
    ensures
        all_digits(s) ==> digits_val(s) >= 0,
{
    if all_digits(s) {
        lemma_digits_val_bound(s);
    }
}


/// Index of the first `.` byte of `s[from..to]`, as an absolute index.
fn find_dot(s: &[u8], from: usize, to: usize) -> (r: Option<usize>)
    requires
        from <= to <= s@.len(),
    ensures
        ({
            let sub = s@.subrange(from as int, to as int);
            match r {
                None => first_dot_from(sub, 0) is None,
                Some(j) => from <= j < to && first_dot_from(sub, 0) == Some(j - from),
            }
        }),
{
    let ghost sub = s@.subrange(from as int, to as int);
    let mut i: usize = from;
    while i < to
        invariant
            from <= i <= to <= s@.len(),
            sub == s@.subrange(from as int, to as int),
            first_dot_from(sub, 0) == first_dot_from(sub, i - from),
        decreases to - i,
    {
        proof {
            assert(sub[i - from] == s@[i as int]);
        }
        if s[i] == ('.' as u8) {
            return Some(i);
        }
        i = i + 1;
    }
    None
}

/// Parse an integer text as an `i32`, as the heart-rate and temperature
/// fields are read. A text outside the integer grammar, or whose value
/// does not fit an `i32`, is a `BadNumber` parse error.
pub fn parse_i32(s: &[u8]) -> (r: Result<i32, ParseError>)
    ensures
        int_text(s@) && -0x80000000 <= int_text_val(s@) <= 0x7fffffff ==> (r matches Ok(v) && v
            == int_text_val(s@)),
        !(int_text(s@) && -0x80000000 <= int_text_val(s@) <= 0x7fffffff) ==> r == Err::<
            i32,
            ParseError,
        >(ParseError::BadNumber),
{
    let n = s.len();
    let (neg, start): (bool, usize) = if n > 0 && (s[0] == ('+' as u8) || s[0] == ('-' as u8)) {
        (s[0] == ('-' as u8), 1)
    } else {
        (false, 0)
    };
    proof {
        assert(body_of(s@) =~= s@.subrange(start as int, n as int));
    }
    if start == n {
        return Err(ParseError::BadNumber);
    }
    match scan_digits(s, start, n) {
        None => Err(ParseError::BadNumber),
        Some(acc) => {
            if neg {
                if acc <= 0x80000000 {
                    Ok((-(acc as i64)) as i32)
                } else {
                    Err(ParseError::BadNumber)
                }
            } else {
                if acc <= 0x7fffffff {
                    Ok(acc as i32)
                } else {
                    Err(ParseError::BadNumber)
                }
            }
        },
    }
}

/// Parse a decimal text as a fixed-point value in 1e-7 steps, as the
/// coordinate and sensor fields are read. Fractional digits beyond the
/// seventh are truncated. A text outside the decimal grammar, or whose
/// value does not fit, is a `BadNumber` parse error.
pub fn parse_fixed(s: &[u8]) -> (r: Result<i64, ParseError>)
    ensures
        fixed_text(s@) && -0x8000000000000000 <= fixed_val(s@) <= 0x7fffffffffffffff ==> (r matches
            Ok(v) && v == fixed_val(s@)),
        !(fixed_text(s@) && -0x8000000000000000 <= fixed_val(s@) <= 0x7fffffffffffffff) ==> r
            == Err::<i64, ParseError>(ParseError::BadNumber),
{
    let n = s.len();
    let (neg, start): (bool, usize) = if n > 0 && (s[0] == ('+' as u8) || s[0] == ('-' as u8)) {
        (s[0] == ('-' as u8), 1)
    } else {
        (false, 0)
    };
    let ghost b = body_of(s@);
    proof {
        assert(b =~= s@.subrange(start as int, n as int));
    }
    match find_dot(s, start, n) {
        None => {
            if start == n {
                return Err(ParseError::BadNumber);
            }
            match scan_digits(s, start, n) {
                None => Err(ParseError::BadNumber),
                Some(acc) => {
                    proof {
                        lemma_digits_val_bound_weak(b);
                    }
                    finish_fixed(neg, acc, 0, Ghost(s@))
                },
            }
        },
        Some(j) => {
            if n - start <= 1 {
                return Err(ParseError::BadNumber);
            }
            let ghost ip = b.subrange(0, j - start as int);
            let ghost fp = b.subrange(j - start + 1, b.len() as int);
            proof {
                assert(ip =~= s@.subrange(start as int, j as int));
                assert(fp =~= s@.subrange(j as int + 1, n as int));
            }
            let int_acc = match scan_digits(s, start, j) {
                None => {
                    return Err(ParseError::BadNumber);
                },
                Some(acc) => acc,
            };
            match scan_digits(s, j + 1, n) {
                None => Err(ParseError::BadNumber),
                Some(_) => {
                    // the value of the first seven fractional digits
                    let f_end = if n - (j + 1) > 7 {
                        j + 8
                    } else {
                        n
                    };
                    let f_width = f_end - (j + 1);
                    let frac_acc = match scan_digits(s, j + 1, f_end) {
                        None => {
                            return Err(ParseError::BadNumber);
                        },
                        Some(acc) => acc,
                    };
                    let ghost f7 = s@.subrange(j as int + 1, f_end as int);
                    proof {
                        lemma_pow10_values();
                        if fp.len() > 7 {
                            assert(f7 =~= fp.subrange(0, 7));
                        } else {
                            assert(f7 =~= fp);
                        }
                        lemma_frac7_bound(f7);
                        lemma_digits_val_bound_weak(ip);
                    }
                    let frac = frac_acc as u64 * pow10_exec(7 - f_width);
                    proof {
                        assert(frac == digits_val(f7) * pow10(7 - f7.len()));
                        assert(frac == frac_val7(fp));
                        assert(frac < 10000000);
                    }
                    finish_fixed(neg, int_acc, frac, Ghost(s@))
                },
            }
        },
    }
}

proof fn lemma_frac7_bound(f: Seq<u8>)
    requires
        all_digits(f),
        f.len() <= 7,
    ensures
        0 <= digits_val(f) < 10000000,
        0 <= digits_val(f) * pow10(7 - f.len()) < 10000000,
{
    lemma_digits_val_bound(f);
    lemma_pow10_values();
    let v = digits_val(f);
    if f.len() == 0 {
        assert(v * pow10(7 - f.len()) == v * 10000000);
    } else if f.len() == 1 {
        assert(v * pow10(7 - f.len()) == v * 1000000);
    } else if f.len() == 2 {
        assert(v * pow10(7 - f.len()) == v * 100000);
    } else if f.len() == 3 {
        assert(v * pow10(7 - f.len()) == v * 10000);
    } else if f.len() == 4 {
        assert(v * pow10(7 - f.len()) == v * 1000);
    } else if f.len() == 5 {
        assert(v * pow10(7 - f.len()) == v * 100);
    } else if f.len() == 6 {
        assert(v * pow10(7 - f.len()) == v * 10);
    } else {
        assert(v * pow10(7 - f.len()) == v * 1);
    }
}

proof fn lemma_pow10_values()
    ensures
        pow10(0) == 1,
        pow10(1) == 10,
        pow10(2) == 100,
        pow10(3) == 1000,
        pow10(4) == 10000,
        pow10(5) == 100000,
        pow10(6) == 1000000,
        pow10(7) == 10000000,
{
    reveal_with_fuel(pow10, 9);
}

fn pow10_exec(k: usize) -> (r: u64)
    requires
        k <= 7,
    ensures
        r == pow10(k as int),
        r <= 10000000,
{
    proof {
        lemma_pow10_values();
    }
    if k == 0 {
        1
    } else if k == 1 {
        10
    } else if k == 2 {
        100
    } else if k == 3 {
        1000
    } else if k == 4 {
        10000
    } else if k == 5 {
        100000
    } else if k == 6 {
        1000000
    } else {
        10000000
    }
}

/// Combine the scanned integer part (saturated at 2^64) and exact
/// fractional part into a signed fixed-point value, or reject a value
/// that does not fit an `i64`.
fn finish_fixed(neg: bool, int_acc: u128, frac: u64, Ghost(s): Ghost<Seq<u8>>) -> (r: Result<
    i64,
    ParseError,
>)
    requires
        fixed_text(s),
        neg == (sign_of(s) == -1),
        frac < 10000000,
        ({
            let b = body_of(s);
            let iv = match first_dot_from(b, 0) {
                None => digits_val(b),
                Some(j) => digits_val(b.subrange(0, j)),
            };
            let fv = match first_dot_from(b, 0) {
                None => 0,
                Some(j) => frac_val7(b.subrange(j + 1, b.len() as int)),
            };
            &&& 0 <= iv
            &&& 0 <= fv
            &&& frac == fv
            &&& (iv < 0x10000000000000000 ==> int_acc == iv)
            &&& (iv >= 0x10000000000000000 ==> int_acc == 0x10000000000000000)
        }),
    ensures
        -0x8000000000000000 <= fixed_val(s) <= 0x7fffffffffffffff ==> (r matches Ok(v) && v
            == fixed_val(s)),
        !(-0x8000000000000000 <= fixed_val(s) <= 0x7fffffffffffffff) ==> r == Err::<
            i64,
            ParseError,
        >(ParseError::BadNumber),
{
    let total: u128 = int_acc * 10000000 + frac as u128;
    if neg {
        if total <= 0x8000000000000000 {
            Ok((-(total as i128)) as i64)
        } else {
            Err(ParseError::BadNumber)
        }
    } else {
        if total <= 0x7fffffffffffffff {
            Ok(total as i64)
        } else {
            Err(ParseError::BadNumber)
        }
    }
}

/// The shortest decimal text of the nonnegative integer `n`.
pub open spec fn dec_digits(n: int) -> Seq<u8>
    decreases n,
{
    if n < 10 {
        seq![(n + ('0' as u8)) as u8]
    } else {
        dec_digits(n / 10).push((n % 10 + ('0' as u8)) as u8)
    }
}

/// The `w`-digit zero-padded decimal text of `n`.
pub open spec fn padded_digits(n: int, w: int) -> Seq<u8>
    decreases w,
{
    if w <= 0 {
        Seq::empty()
    } else {
        padded_digits(n / 10, w - 1).push((n % 10 + ('0' as u8)) as u8)
    }
}

/// `s` without its trailing zero digits.
pub open spec fn trim_zeros(s: Seq<u8>) -> Seq<u8>
    decreases s.len(),
{
    if s.len() > 0 && s.last() == ('0' as u8) {
        trim_zeros(s.drop_last())
    } else {
        s
    }
}

/// The decimal text of the fixed-point value `v`: the integer part, and
/// the fractional digits only when they are not all zero, without
/// trailing fractional zeros. A whole number keeps no decimal point.
pub open spec fn spec_format_fixed(v: int) -> Seq<u8> {
    let m = if v < 0 {
        -v
    } else {
        v
    };
    let sign: Seq<u8> = if v < 0 {
        seq![('-' as u8)]
    } else {
        Seq::empty()
    };
    let ip = m / 10000000;
    let fp = m % 10000000;
    if fp == 0 {
        sign + dec_digits(ip)
    } else {
        sign + dec_digits(ip) + seq![('.' as u8)] + trim_zeros(padded_digits(fp, 7))
    }
}

/// Every byte of `b` is in the ASCII range.
pub open spec fn ascii_seq(b: Seq<u8>) -> bool {
    forall|k: int| 0 <= k < b.len() ==> b[k] < 128
}

pub proof fn lemma_ascii_concat(a: Seq<u8>, b: Seq<u8>)
    requires
        ascii_seq(a),
        ascii_seq(b),
    ensures
        ascii_seq(a + b),
{
    assert forall|k: int| 0 <= k < (a + b).len() implies (a + b)[k] < 128 by {
        if k < a.len() {
            assert((a + b)[k] == a[k]);
        } else {
            assert((a + b)[k] == b[k - a.len()]);
        }
    }
}

pub proof fn lemma_dec_digits_ascii(n: int)
    requires
        n >= 0,
    ensures
        ascii_seq(dec_digits(n)),
    decreases n,
{
    if n >= 10 {
        lemma_dec_digits_ascii(n / 10);
        let s = dec_digits(n / 10);
        let d = (n % 10 + ('0' as u8)) as u8;
        assert forall|k: int| 0 <= k < s.push(d).len() implies s.push(d)[k] < 128 by {
            if k < s.len() {
                assert(s.push(d)[k] == s[k]);
            } else {
                assert(s.push(d)[k] == d);
            }
        }
    }
}

pub proof fn lemma_padded_digits_ascii(n: int, w: int)
    requires
        n >= 0,
    ensures
        ascii_seq(padded_digits(n, w)),
    decreases w,
{
    if w > 0 {
        lemma_padded_digits_ascii(n / 10, w - 1);
        let s = padded_digits(n / 10, w - 1);
        let d = (n % 10 + ('0' as u8)) as u8;
        assert forall|k: int| 0 <= k < s.push(d).len() implies s.push(d)[k] < 128 by {
            if k < s.len() {
                assert(s.push(d)[k] == s[k]);
            } else {
                assert(s.push(d)[k] == d);
            }
        }
    }
}

pub proof fn lemma_trim_zeros_ascii(s: Seq<u8>)
    requires
        ascii_seq(s),
    ensures
        ascii_seq(trim_zeros(s)),
    decreases s.len(),
{
    if s.len() > 0 && s.last() == ('0' as u8) {
        assert(ascii_seq(s.drop_last())) by {
            assert(forall|k: int| 0 <= k < s.len() - 1 ==> s.drop_last()[k] == s[k]);
        }
        lemma_trim_zeros_ascii(s.drop_last());
    }
}

/// The decimal text of any fixed-point value is ASCII.
pub proof fn lemma_format_fixed_ascii(v: int)
    ensures
        ascii_seq(spec_format_fixed(v)),
{
    let m = if v < 0 {
        -v
    } else {
        v
    };
    let sign: Seq<u8> = if v < 0 {
        seq![('-' as u8)]
    } else {
        Seq::empty()
    };
    let ip = m / 10000000;
    let fp = m % 10000000;
    assert(ascii_seq(sign));
    lemma_dec_digits_ascii(ip);
    lemma_ascii_concat(sign, dec_digits(ip));
    if fp != 0 {
        lemma_padded_digits_ascii(fp, 7);
        lemma_trim_zeros_ascii(padded_digits(fp, 7));
        let dot: Seq<u8> = seq![('.' as u8)];
        assert(ascii_seq(dot));
        lemma_ascii_concat(sign + dec_digits(ip), dot);
        lemma_ascii_concat(sign + dec_digits(ip) + dot, trim_zeros(padded_digits(fp, 7)));
        assert(spec_format_fixed(v) == sign + dec_digits(ip) + dot + trim_zeros(
            padded_digits(fp, 7),
        ));
    }
}

/// Append the shortest decimal text of `n`.
pub fn push_dec(out: &mut Vec<u8>, n: u64)
    ensures
        final(out)@ == old(out)@ + dec_digits(n as int),
    decreases n,
{
    if n >= 10 {
        push_dec(out, n / 10);
        out.push((n % 10) as u8 + ('0' as u8));
        proof {
            assert(out@ =~= old(out)@ + dec_digits(n as int));
        }
    } else {
        out.push(n as u8 + ('0' as u8));
        proof {
            assert(out@ =~= old(out)@ + dec_digits(n as int));
        }
    }
}

/// Append the `w`-digit zero-padded decimal text of `n`.
fn push_padded(out: &mut Vec<u8>, n: u64, w: usize)
    ensures
        final(out)@ == old(out)@ + padded_digits(n as int, w as int),
    decreases w,
{
    if w > 0 {
        push_padded(out, n / 10, w - 1);
        out.push((n % 10) as u8 + ('0' as u8));
        proof {
            assert(out@ =~= old(out)@ + padded_digits(n as int, w as int));
        }
    } else {
        proof {
            assert(out@ =~= old(out)@ + padded_digits(n as int, 0));
        }
    }
}

/// Append the decimal text of the fixed-point value `v`, per
/// [`spec_format_fixed`].
pub fn push_fixed(out: &mut Vec<u8>, v: i64)
    ensures
        final(out)@ == old(out)@ + spec_format_fixed(v as int),
{
    let ghost base = old(out)@;
    let neg = v < 0;
    if neg {
        out.push('-' as u8);
    }
    let m: u64 = if v < 0 {
        if v == -0x8000000000000000 {
            0x8000000000000000
        } else {
            (-v) as u64
        }
    } else {
        v as u64
    };
    let ip = m / 10000000;
    let fp = m % 10000000;
    let ghost sign_seq: Seq<u8> = if neg {
        seq![('-' as u8)]
    } else {
        Seq::<u8>::empty()
    };
    proof {
        assert(out@ =~= base + sign_seq);
    }
    push_dec(out, ip);
    if fp == 0 {
        proof {
            assert(out@ =~= base + spec_format_fixed(v as int));
        }
        return ;
    }
    out.push('.' as u8);
    let ghost head = base + sign_seq + dec_digits(ip as int) + seq![('.' as u8)];
    proof {
        assert(out@ =~= head);
    }
    let mut tail: Vec<u8> = Vec::new();
    push_padded(&mut tail, fp, 7);
    while tail.len() > 0 && tail[tail.len() - 1] == ('0' as u8)
        invariant
            trim_zeros(tail@) == trim_zeros(padded_digits(fp as int, 7)),
        decreases tail.len(),
    {
        proof {
            assert(tail@.drop_last() =~= tail@.subrange(0, tail@.len() - 1));
        }
        tail.pop();
    }
    proof {
        assert(trim_zeros(tail@) == tail@);
    }
    let mut k: usize = 0;
    while k < tail.len()
        invariant
            k <= tail@.len(),
            out@ == head + tail@.subrange(0, k as int),
            head == base + sign_seq + dec_digits(ip as int) + seq![('.' as u8)],
            trim_zeros(tail@) == tail@,
            tail@ == trim_zeros(padded_digits(fp as int, 7)),
        decreases tail.len() - k,
    {
        out.push(tail[k]);
        k = k + 1;
        proof {
            assert(out@ =~= head + tail@.subrange(0, k as int));
        }
    }
    proof {
        assert(tail@.subrange(0, tail@.len() as int) =~= tail@);
        assert(out@ =~= base + spec_format_fixed(v as int));
    }
}

} // verus!
