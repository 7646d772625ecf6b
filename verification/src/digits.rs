//! Decimal numerals on byte strings: parsing and printing, with a proved
//! round trip. All report, dump and snapshot formats in this crate carry
//! their numbers as ASCII decimal fields.

use vstd::prelude::*;

verus! {

/// An ASCII decimal digit.
pub open spec fn is_dec_digit(b: u8) -> bool {
    48 <= b && b <= 57
}

pub open spec fn all_dec_digits(s: Seq<u8>) -> bool {
    forall|i: int| 0 <= i < s.len() ==> is_dec_digit(#[trigger] s[i])
}

/// Value of a digit string, most significant digit first.
pub open spec fn dec_value(s: Seq<u8>) -> nat
    decreases s.len(),
{
    if s.len() == 0 {
        0
    } else {
        (dec_value(s.drop_last()) * 10 + (s.last() - 48)) as nat
    }
}

/// The canonical numeral of `n`: no leading zero except for `n == 0` itself.
pub open spec fn dec_of(n: nat) -> Seq<u8>
    decreases n,
{
    if n < 10 {
        seq![(48 + n) as u8]
    } else {
        dec_of(n / 10).push((48 + n % 10) as u8)
    }
}

/// A numeral, stripped of one optional leading `+` as `str::parse` allows.
pub open spec fn digits_part(s: Seq<u8>) -> Seq<u8> {
    if s.len() >= 1 && s[0] == 43 {
        s.skip(1)
    } else {
        s
    }
}

/// `s` is a well-formed numeral (after the optional sign).
pub open spec fn is_numeral(s: Seq<u8>) -> bool {
    digits_part(s).len() >= 1 && all_dec_digits(digits_part(s))
}

/// The number a well-formed numeral denotes.
pub open spec fn numeral_value(s: Seq<u8>) -> nat {
    dec_value(digits_part(s))
}

pub proof fn lemma_dec_of_shape(n: nat)
    ensures
        dec_of(n).len() >= 1,
        all_dec_digits(dec_of(n)),
        n > 0 ==> dec_of(n)[0] != 48,
    decreases n,
{
    if n >= 10 {
        lemma_dec_of_shape(n / 10);
    }
}

pub proof fn lemma_dec_value_of(n: nat)
    ensures
        dec_value(dec_of(n)) == n,
    decreases n,
{
    if n < 10 {
        assert(dec_of(n) =~= seq![(48 + n) as u8]);
        assert(dec_of(n).drop_last() =~= Seq::<u8>::empty());
        assert(dec_value(dec_of(n).drop_last()) == 0);
        assert(dec_of(n).last() == (48 + n) as u8);
        assert(dec_value(dec_of(n)) == (dec_value(dec_of(n).drop_last()) * 10 + (dec_of(n).last()
            - 48)) as nat);
    } else {
        lemma_dec_value_of(n / 10);
        assert(dec_of(n).drop_last() =~= dec_of(n / 10));
        assert(dec_of(n).last() == (48 + n % 10) as u8);
        assert(n / 10 * 10 + n % 10 == n) by (nonlinear_arith);
        assert(dec_value(dec_of(n)) == dec_value(dec_of(n / 10)) * 10 + (dec_of(n).last() - 48));
    }
}

/// A longer digit string never denotes a smaller number.
pub proof fn lemma_dec_value_prefix(s: Seq<u8>, i: int)
    requires
        0 <= i <= s.len(),
        all_dec_digits(s),
    ensures
        dec_value(s.take(i)) <= dec_value(s),
    decreases s.len() - i,
{
    if i < s.len() {
        lemma_dec_value_prefix(s, i + 1);
        assert(s.take(i + 1).drop_last() =~= s.take(i));
        assert(dec_value(s.take(i)) <= dec_value(s.take(i + 1)));
    } else {
        assert(s.take(i) =~= s);
    }
}

/// Parses a decimal numeral (optional leading `+`, then digits) as `u64`.
/// Mirrors `str::parse::<u64>` on trimmed input: empty, non-digit or
/// overflowing strings are rejected.
pub fn parse_u64(s: &[u8]) -> (r: Option<u64>)
    ensures
        r == if is_numeral(s@) && numeral_value(s@) <= u64::MAX {
            Some(numeral_value(s@) as u64)
        } else {
            None::<u64>
        },
{
    let n = s.len();
    let start: usize = if n >= 1 && s[0] == 43 { 1 } else { 0 };
    if n == start {
        return None;
    }
    let ghost d = digits_part(s@);
    proof {
        assert(d =~= s@.skip(start as int));
    }
    let mut acc: u128 = 0;
    let mut i: usize = start;
    while i < n
        invariant
            start <= i <= n,
            n == s@.len(),
            d == s@.skip(start as int),
            d == digits_part(s@),
            all_dec_digits(d.take(i - start)),
            acc == dec_value(d.take(i - start)),
            acc <= u64::MAX,
        decreases n - i,
    {
        let b = s[i];
        if b < 48 || b > 57 {
            proof {
                assert(d[i - start] == s@[i as int]);
                assert(!is_dec_digit(d[i - start]));
            }
            return None;
        }
        proof {
            assert(d.take(i + 1 - start).drop_last() =~= d.take(i - start));
            assert(d.take(i + 1 - start).last() == b);
        }
        acc = acc * 10 + ((b - 48) as u128);
        i += 1;
        if acc > u64::MAX as u128 {
            proof {
                if all_dec_digits(d) {
                    lemma_dec_value_prefix(d, i - start);
                }
            }
            return None;
        }
    }
    proof {
        assert(d.take(n - start) =~= d);
    }
    Some(acc as u64)
}

/// Parses as `u32`; values over `u32::MAX` are rejected.
pub fn parse_u32(s: &[u8]) -> (r: Option<u32>)
    ensures
        r == if is_numeral(s@) && numeral_value(s@) <= u32::MAX {
            Some(numeral_value(s@) as u32)
        } else {
            None::<u32>
        },
{
    match parse_u64(s) {
        Some(v) if v <= u32::MAX as u64 => Some(v as u32),
        _ => None,
    }
}

/// Parses as `usize`; values over `usize::MAX` are rejected.
pub fn parse_usize(s: &[u8]) -> (r: Option<usize>)
    ensures
        r == if is_numeral(s@) && numeral_value(s@) <= usize::MAX {
            Some(numeral_value(s@) as usize)
        } else {
            None::<usize>
        },
{
    match parse_u64(s) {
        Some(v) if v <= usize::MAX as u64 => Some(v as usize),
        _ => None,
    }
}

/// Prints `v` as its canonical decimal numeral.
pub fn u64_to_dec(v: u64) -> (r: Vec<u8>)
    ensures
        r@ == dec_of(v as nat),
{
    let mut rev: Vec<u8> = Vec::new();
    let mut x = v;
    loop
        invariant_except_break
            dec_of(v as nat) == dec_of(x as nat) + rev@.reverse(),
        ensures
            dec_of(v as nat) == rev@.reverse(),
        decreases x,
    {
        rev.push(48 + (x % 10) as u8);
        proof {
            if x >= 10 {
                assert(dec_of(x as nat) =~= dec_of((x / 10) as nat) + seq![
                    (48 + (x % 10) as nat) as u8,
                ]);
            } else {
                assert(dec_of(x as nat) =~= seq![(48 + (x % 10) as nat) as u8]);
            }
            assert(rev@.reverse() =~= seq![(48 + (x % 10) as nat) as u8] + rev@.drop_last().reverse());
        }
        x = x / 10;
        if x == 0 {
            break;
        }
    }
    let mut out: Vec<u8> = Vec::new();
    let mut j = rev.len();
    while j > 0
        invariant
            j <= rev@.len(),
            out@ == rev@.skip(j as int).reverse(),
        decreases j,
    {
        j -= 1;
        out.push(rev[j]);
        proof {
            assert(rev@.skip(j as int).reverse() =~= rev@.skip(j + 1).reverse().push(rev@[j as int]));
        }
    }
    proof {
        assert(rev@.skip(0) =~= rev@);
    }
    out
}

/// Prints a `u32` as decimal.
pub fn u32_to_dec(v: u32) -> (r: Vec<u8>)
    ensures
        r@ == dec_of(v as nat),
{
    u64_to_dec(v as u64)
}

/// Prints a `usize` as decimal.
pub fn usize_to_dec(v: usize) -> (r: Vec<u8>)
    ensures
        r@ == dec_of(v as nat),
{
    u64_to_dec(v as u64)
}

/// Printing then parsing gives the number back: the numeral round trip.
pub proof fn lemma_dec_round_trip(n: nat)
    ensures
        is_numeral(dec_of(n)),
        numeral_value(dec_of(n)) == n,
{
    lemma_dec_of_shape(n);
    lemma_dec_value_of(n);
    assert(digits_part(dec_of(n)) =~= dec_of(n));
}

} // verus!
