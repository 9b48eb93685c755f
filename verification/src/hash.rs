//! The hash demo: a digest decoded into fixed-width hex chunks.
//!
//! The digest text is split into fixed-width chunks, each read as a
//! hexadecimal `u32`, and the chunk values are concatenated as decimal
//! text into one large number string.

use vstd::prelude::*;

use crate::errors::ParseError;

verus! {

use vstd::string::StringSliceAdditionalSpecFns;
use crate::num::dec_digits;
use crate::num::push_dec;
use crate::num::ascii_seq;
use crate::num::lemma_dec_digits_ascii;
use crate::num::lemma_ascii_concat;
use crate::workout::ascii_chars;
use crate::workout::ascii_string;

/// An ASCII hexadecimal digit.
pub open spec fn is_hex(b: u8) -> bool {
    ||| ('0' as u8) <= b <= ('9' as u8)
    ||| ('a' as u8) <= b <= ('f' as u8)
    ||| ('A' as u8) <= b <= ('F' as u8)
}

/// Numeric value of an ASCII hexadecimal digit.
pub open spec fn hex_val(b: u8) -> int {
    if ('0' as u8) <= b <= ('9' as u8) {
        b - ('0' as u8)
    } else if ('a' as u8) <= b <= ('f' as u8) {
        b - ('a' as u8) + 10
    } else {
        b - ('A' as u8) + 10
    }
}

/// Every byte of `s` is a hexadecimal digit.
pub open spec fn all_hex(s: Seq<u8>) -> bool {
    forall|k: int| 0 <= k < s.len() ==> is_hex(s[k])
}

/// Value of a hexadecimal digit string, most significant first.
pub open spec fn hexs_val(s: Seq<u8>) -> int
    decreases s.len(),
{
    if s.len() == 0 {
        0
    } else {
        hexs_val(s.drop_last()) * 16 + hex_val(s.last())
    }
}

/// What decoding `s` in chunks of `step` hex digits yields: the chunk
/// values left to right, or the first chunk that is not a hexadecimal
/// `u32`; a trailing partial chunk is an error.
pub open spec fn spec_decode_hex(s: Seq<u8>, step: int) -> Result<Seq<u32>, ParseError>
    decreases s.len(),
{
    if step < 1 {
        Err(ParseError::BadNumber)
    } else if s.len() == 0 {
        Ok(Seq::empty())
    } else if s.len() < step {
        Err(ParseError::BadNumber)
    } else {
        let c = s.subrange(0, step);
        if !all_hex(c) || hexs_val(c) > 0xffffffff {
            Err(ParseError::BadNumber)
        } else {
            match spec_decode_hex(s.skip(step), step) {
                Err(e) => Err(e),
                Ok(rest) => Ok(seq![(hexs_val(c) + 0) as u32] + rest),
            }
        }
    }
}

/// Scan `s[from..to]`: `None` when some byte is not a hex digit;
/// otherwise the chunk's value, saturated at 2^32.
fn scan_hex(s: &[u8], from: usize, to: usize) -> (r: Option<u64>)
    requires
        from <= to <= s@.len(),
    ensures
        ({
            let sub = s@.subrange(from as int, to as int);
            match r {
                None => !all_hex(sub),
                Some(acc) => {
                    &&& all_hex(sub)
                    &&& hexs_val(sub) < 0x100000000 ==> acc == hexs_val(sub)
                    &&& hexs_val(sub) >= 0x100000000 ==> acc == 0x100000000
                },
            }
        }),
{
    let mut acc: u64 = 0;
    let mut i: usize = from;
    while i < to
        invariant
            from <= i <= to <= s@.len(),
            all_hex(s@.subrange(from as int, i as int)),
            hexs_val(s@.subrange(from as int, i as int)) < 0x100000000 ==> acc == hexs_val(
                s@.subrange(from as int, i as int),
            ),
            hexs_val(s@.subrange(from as int, i as int)) >= 0x100000000 ==> acc == 0x100000000,
            acc <= 0x100000000,
        decreases to - i,
    {
        let ghost pref = s@.subrange(from as int, i as int);
        let ghost next = s@.subrange(from as int, i as int + 1);
        proof {
            assert(next.drop_last() =~= pref);
            assert(next.last() == s@[i as int]);
            lemma_hexs_val_nonneg(pref);
        }
        let b = s[i];
        let d: u64 = if ('0' as u8) <= b && b <= ('9' as u8) {
            (b - ('0' as u8)) as u64
        } else if ('a' as u8) <= b && b <= ('f' as u8) {
            (b - ('a' as u8)) as u64 + 10
        } else if ('A' as u8) <= b && b <= ('F' as u8) {
            (b - ('A' as u8)) as u64 + 10
        } else {
            proof {
                assert(s@.subrange(from as int, to as int)[i - from] == b);
            }
            return None;
        };
        let t = acc * 16 + d;
        acc = if t > 0x100000000 {
            0x100000000
        } else {
            t
        };
        i = i + 1;
        proof {
            assert(forall|k: int| 0 <= k < next.len() ==> is_hex(next[k]));
        }
    }
    proof {
        assert(s@.subrange(from as int, to as int) =~= s@.subrange(from as int, i as int));
    }
    Some(acc)
}

proof fn lemma_hexs_val_nonneg(s: Seq<u8>)
    ensures
        all_hex(s) ==> hexs_val(s) >= 0,
    decreases s.len(),
{
    if s.len() > 0 && all_hex(s) {
        assert(all_hex(s.drop_last())) by {
            assert(forall|k: int|
                0 <= k < s.len() - 1 ==> s.drop_last()[k] == s[k] && is_hex(s[k]));
        }
        lemma_hexs_val_nonneg(s.drop_last());
        assert(is_hex(s.last())) by {
            assert(s.last() == s[s.len() - 1]);
        }
    }
}

/// Decode a hex string in chunks of `step` digits into `u32` values,
/// left to right; a chunk outside hexadecimal `u32` range fails. The
/// text length must be a whole number of chunks (with fewer, the chunk
/// walk would run off the text).
pub fn decode_hex(s: &str, step: usize) -> (r: Result<Vec<u32>, ParseError>)
    requires
        step >= 1,
        (s.spec_bytes().len() as int) % (step as int) == 0,
    ensures
        ({
            match spec_decode_hex(s.spec_bytes(), step as int) {
                Err(e) => r == Err::<Vec<u32>, ParseError>(e),
                Ok(vals) => r matches Ok(v) && v@ == vals,
            }
        }),
{
    hex_chunks(s.as_bytes(), step)
}

/// Decode hex text, given as bytes, in chunks of `step` digits.
fn hex_chunks(b: &[u8], step: usize) -> (r: Result<Vec<u32>, ParseError>)
    requires
        step >= 1,
        (b@.len() as int) % (step as int) == 0,
    ensures
        ({
            match spec_decode_hex(b@, step as int) {
                Err(e) => r == Err::<Vec<u32>, ParseError>(e),
                Ok(vals) => r matches Ok(v) && v@ == vals,
            }
        }),
{
    let n = b.len();
    let mut out: Vec<u32> = Vec::new();
    let mut i: usize = 0;
    proof {
        assert(b@.skip(0) =~= b@);
    }
    while i < n
        invariant
            i <= n == b@.len(),
            step >= 1,
            ({
                match spec_decode_hex(b@.skip(i as int), step as int) {
                    Err(e) => spec_decode_hex(b@, step as int) == Err::<Seq<u32>, ParseError>(e),
                    Ok(rest) => spec_decode_hex(b@, step as int) == Ok::<Seq<u32>, ParseError>(
                        out@ + rest,
                    ),
                }
            }),
        decreases n - i,
    {
        let ghost tail = b@.skip(i as int);
        proof {
            assert(tail.len() == n - i);
        }
        if n - i < step {
            return Err(ParseError::BadNumber);
        }
        proof {
            assert(tail.subrange(0, step as int) =~= b@.subrange(i as int, i + step as int));
            assert(tail.skip(step as int) =~= b@.skip(i + step as int));
        }
        let chunk_end = i + step;
        match scan_hex(b, i, chunk_end) {
            None => {
                return Err(ParseError::BadNumber);
            },
            Some(acc) => {
                if acc > 0xffffffff {
                    return Err(ParseError::BadNumber);
                }
                proof {
                    lemma_hexs_val_nonneg(b@.subrange(i as int, chunk_end as int));
                }
                let ghost before_out = out@;
                out.push(acc as u32);
                proof {
                    assert(forall|x: Seq<u32>, y: Seq<u32>, z: Seq<u32>| #[trigger] ((x + y) + z)
                        =~= x + (y + z));
                    assert(out@ =~= before_out + seq![
                        hexs_val(b@.subrange(i as int, chunk_end as int)) as u32,
                    ]);
                }
                i = chunk_end;
            },
        }
    }
    proof {
        assert(b@.skip(i as int) =~= Seq::<u8>::empty());
        assert(out@ + Seq::<u32>::empty() =~= out@);
    }
    Ok(out)
}

/// The digest text of the SHA-256 hash of a string, as bytes: 64
/// lowercase hexadecimal digits, a function of the input alone.
pub uninterp spec fn sha256_hex_of(s: Seq<char>) -> Seq<u8>;

/// Relies on `sha256::digest`: the SHA-256 digest of the input string
/// as a hex text of 64 lowercase hexadecimal digits (one ASCII byte
/// per digit), a function of the input alone.
#[verifier::external_body]
fn sha256_hex(s: &str) -> (r: Vec<u8>)
    ensures
        r@ == sha256_hex_of(s@),
        r@.len() == 64,
{
    sha256::digest(s).into_bytes()
}

/// The decimal concatenation of a chunk-value sequence.
pub open spec fn spec_cat_decimal(vals: Seq<u32>) -> Seq<u8>
    decreases vals.len(),
{
    if vals.len() == 0 {
        Seq::empty()
    } else {
        spec_cat_decimal(vals.drop_last()) + dec_digits(vals.last() as int)
    }
}

/// Hash a string and render the digest as one large decimal number:
/// the digest's eight 8-digit hex chunks, each read as a `u32`, their
/// decimal texts concatenated.
pub fn digest_decimal(input: &str) -> (r: Result<String, ParseError>)
    ensures
        ({
            match spec_decode_hex(sha256_hex_of(input@), 8) {
                Err(e) => r == Err::<String, ParseError>(e),
                Ok(vals) => r matches Ok(t) && t@ == ascii_chars(spec_cat_decimal(vals)),
            }
        }),
{
    let digest = sha256_hex(input);
    let vals = match hex_chunks(digest.as_slice(), 8) {
        Err(e) => {
            return Err(e);
        },
        Ok(v) => v,
    };
    let mut buf: Vec<u8> = Vec::new();
    let n = vals.len();
    let mut i: usize = 0;
    proof {
        assert(vals@.take(0) =~= Seq::<u32>::empty());
        assert(buf@ =~= spec_cat_decimal(vals@.take(0)));
        assert(ascii_seq(buf@));
    }
    while i < n
        invariant
            i <= n == vals@.len(),
            buf@ == spec_cat_decimal(vals@.take(i as int)),
            ascii_seq(buf@),
        decreases n - i,
    {
        let ghost before = buf@;
        push_dec(&mut buf, vals[i] as u64);
        i = i + 1;
        proof {
            assert(vals@.take(i as int).drop_last() =~= vals@.take(i as int - 1));
            assert(vals@.take(i as int).last() == vals@[i as int - 1]);
            assert(buf@ =~= spec_cat_decimal(vals@.take(i as int)));
            lemma_dec_digits_ascii(vals@[i as int - 1] as int);
            lemma_ascii_concat(before, dec_digits(vals@[i as int - 1] as int));
        }
    }
    proof {
        assert(vals@.take(n as int) =~= vals@);
    }
    Ok(ascii_string(buf))
}

} // verus!
