//! Decimal numbers as byte strings: the grammar of announcement header
//! values such as a peer identifier or the parts of a socket address.

use vstd::prelude::*;

verus! {

/// The byte value of the digit `0`.
pub const DIGIT_ZERO: u8 = 48;

/// The byte value of `+`, accepted as an optional sign prefix.
pub const PLUS_SIGN: u8 = 43;

/// Whether `b` is an ASCII decimal digit.
pub open spec fn is_digit(b: u8) -> bool {
    48 <= b && b <= 57
}

/// Whether `s` consists of decimal digits only.
pub open spec fn all_digits(s: Seq<u8>) -> bool {
    forall|i: int| 0 <= i < s.len() ==> is_digit(#[trigger] s[i])
}

/// The number a digit string denotes, most significant digit first.
pub open spec fn dec_value(s: Seq<u8>) -> int
    decreases s.len(),
{
    if s.len() == 0 {
        0
    } else {
        dec_value(s.drop_last()) * 10 + s.last() - DIGIT_ZERO
    }
}

/// The canonical digit string of `n`: no sign, no leading zero.
pub open spec fn dec_bytes(n: int) -> Seq<u8>
    decreases n,
    when n >= 0
{
    if n < 10 {
        seq![(DIGIT_ZERO + n) as u8]
    } else {
        dec_bytes(n / 10).push((DIGIT_ZERO + n % 10) as u8)
    }
}

/// A digit string denotes a nonnegative number.
pub proof fn lemma_dec_value_nonneg(s: Seq<u8>)
    requires
        all_digits(s),
    ensures
        dec_value(s) >= 0,
    decreases s.len(),
{
    if s.len() > 0 {
        lemma_dec_value_nonneg(s.drop_last());
    }
}

/// A digit string denotes at least what any of its prefixes denotes.
pub proof fn lemma_dec_value_prefix(s: Seq<u8>, i: int)
    requires
        all_digits(s),
        0 <= i <= s.len(),
    ensures
        dec_value(s) >= dec_value(s.take(i)),
    decreases s.len() - i,
{
    if i == s.len() {
        assert(s.take(i) =~= s);
    } else {
        assert(s.take(i + 1).drop_last() =~= s.take(i));
        assert(all_digits(s.take(i)));
        lemma_dec_value_nonneg(s.take(i));
        assert(dec_value(s.take(i + 1)) == dec_value(s.take(i)) * 10 + s[i] - DIGIT_ZERO);
        lemma_dec_value_prefix(s, i + 1);
    }
}

/// The canonical digit string of `n` is digits only, nonempty, and starts
/// with a nonzero digit unless it is `0` itself.
pub proof fn lemma_dec_bytes_canonical(n: int)
    requires
        n >= 0,
    ensures
        all_digits(dec_bytes(n)),
        dec_bytes(n).len() >= 1,
        n < 10 ==> dec_bytes(n).len() == 1,
        n >= 1 ==> dec_bytes(n)[0] != DIGIT_ZERO,
    decreases n,
{
    if n >= 10 {
        lemma_dec_bytes_canonical(n / 10);
        assert(dec_bytes(n)[0] == dec_bytes(n / 10)[0]);
    }
}

/// The canonical digit string of `n` denotes `n`.
pub proof fn lemma_dec_bytes_value(n: int)
    requires
        n >= 0,
    ensures
        dec_value(dec_bytes(n)) == n,
    decreases n,
{
    if n < 10 {
        assert(dec_bytes(n).drop_last() =~= Seq::<u8>::empty());
        assert(dec_value(Seq::<u8>::empty()) == 0);
        assert((DIGIT_ZERO + n) as u8 == DIGIT_ZERO + n);
        assert(dec_bytes(n).last() == (DIGIT_ZERO + n) as u8);
        assert(dec_value(dec_bytes(n)) == n);
    } else {
        lemma_dec_bytes_value(n / 10);
        assert(0 <= n % 10 < 10);
        assert((DIGIT_ZERO + n % 10) as u8 == DIGIT_ZERO + n % 10);
        assert(dec_bytes(n).drop_last() =~= dec_bytes(n / 10));
        assert(dec_bytes(n).last() == (DIGIT_ZERO + n % 10) as u8);
        assert(dec_value(dec_bytes(n)) == (n / 10) * 10 + n % 10);
        assert(n == (n / 10) * 10 + n % 10) by (nonlinear_arith)
            requires
                n >= 10,
        ;
    }
}

/// Numbers below 1000 take at most three digits, and below 100000 at most
/// five.
pub proof fn lemma_dec_bytes_len(n: int)
    requires
        n >= 0,
    ensures
        n < 10 ==> dec_bytes(n).len() <= 1,
        n < 100 ==> dec_bytes(n).len() <= 2,
        n < 1000 ==> dec_bytes(n).len() <= 3,
        n < 10000 ==> dec_bytes(n).len() <= 4,
        n < 100000 ==> dec_bytes(n).len() <= 5,
        dec_bytes(n).len() >= 1,
    decreases n,
{
    if n >= 10 {
        lemma_dec_bytes_len(n / 10);
    }
}

/// Ten to the `k`.
pub open spec fn pow10(k: nat) -> int
    decreases k,
{
    if k == 0 {
        1
    } else {
        10 * pow10((k - 1) as nat)
    }
}

/// A string of `k` digits denotes less than ten to the `k`.
pub proof fn lemma_dec_value_bound(s: Seq<u8>)
    requires
        all_digits(s),
    ensures
        dec_value(s) < pow10(s.len()),
    decreases s.len(),
{
    if s.len() > 0 {
        lemma_dec_value_bound(s.drop_last());
        assert(dec_value(s) == dec_value(s.drop_last()) * 10 + s.last() - DIGIT_ZERO);
        assert(dec_value(s.drop_last()) * 10 <= (pow10((s.len() - 1) as nat) - 1) * 10)
            by (nonlinear_arith)
            requires
                dec_value(s.drop_last()) <= pow10((s.len() - 1) as nat) - 1,
        ;
    }
}

/// Converts `n` to its canonical digit string.
pub fn format_u64(n: u64) -> (r: Vec<u8>)
    ensures
        r@ == dec_bytes(n as int),
    decreases n,
{
    if n < 10 {
        let mut out: Vec<u8> = Vec::new();
        out.push(DIGIT_ZERO + (n as u8));
        proof {
            assert(out@ =~= dec_bytes(n as int));
        }
        out
    } else {
        let mut out = format_u64(n / 10);
        out.push(DIGIT_ZERO + ((n % 10) as u8));
        proof {
            assert(out@ =~= dec_bytes(n as int));
        }
        out
    }
}

/// Reads an unsigned number from a string of digits (no sign allowed).
///
/// Returns the number exactly when `s` is one or more digits denoting a
/// value that fits in 64 bits.
pub fn parse_u64_digits(s: &[u8]) -> (r: Option<u64>)
    ensures
        r is Some <==> all_digits(s@) && 0 < s@.len() && dec_value(s@) <= u64::MAX,
        r matches Some(n) ==> n == dec_value(s@),
{
    let n = s.len();
    if n == 0 {
        return None;
    }
    let mut acc: u64 = 0;
    let mut i: usize = 0;
    proof {
        assert(s@.take(0) =~= Seq::<u8>::empty());
    }
    while i < n
        invariant
            i <= n,
            n == s@.len(),
            all_digits(s@.take(i as int)),
            acc == dec_value(s@.take(i as int)),
        decreases n - i,
    {
        let b = s[i];
        if b < DIGIT_ZERO || b > 57 {
            assert(!is_digit(s@[i as int]));
            return None;
        }
        let d = b - DIGIT_ZERO;
        proof {
            assert(s@.take(i + 1).drop_last() =~= s@.take(i as int));
            assert(all_digits(s@.take(i + 1)));
        }
        if acc > (u64::MAX - (d as u64)) / 10 {
            proof {
                assert(acc * 10 + d > u64::MAX) by (nonlinear_arith)
                    requires
                        acc > (u64::MAX - (d as u64)) / 10,
                        0 <= d <= 9,
                        acc >= 0,
                ;
                assert(dec_value(s@.take(i + 1)) > u64::MAX);
                if all_digits(s@) {
                    lemma_dec_value_prefix(s@, i + 1);
                }
            }
            return None;
        }
        proof {
            assert(acc * 10 + d <= u64::MAX) by (nonlinear_arith)
                requires
                    acc <= (u64::MAX - (d as u64)) / 10,
                    0 <= d <= 9,
                    acc >= 0,
            ;
        }
        acc = acc * 10 + (d as u64);
        i = i + 1;
    }
    proof {
        assert(s@.take(n as int) =~= s@);
    }
    Some(acc)
}

/// What `parse_u64` accepts: an optional `+`, then digits denoting a value
/// that fits in 64 bits.
pub open spec fn parse_u64_spec(s: Seq<u8>) -> Option<u64> {
    let t = if s.len() > 0 && s[0] == PLUS_SIGN {
        s.skip(1)
    } else {
        s
    };
    if all_digits(t) && 0 < t.len() && dec_value(t) <= u64::MAX {
        Some(dec_value(t) as u64)
    } else {
        None
    }
}

/// Reads an unsigned number from a decimal string with an optional leading
/// `+`, as a peer identifier is written in an announcement header.
pub fn parse_u64(s: &[u8]) -> (r: Option<u64>)
    ensures
        r == parse_u64_spec(s@),
{
    let n = s.len();
    if n > 0 && s[0] == PLUS_SIGN {
        let r = parse_u64_digits(&s[1..n]);
        proof {
            assert(s@.subrange(1, n as int) =~= s@.skip(1));
        }
        r
    } else {
        parse_u64_digits(s)
    }
}

/// The decimal round trip: the canonical digit string of any number reads
/// back as that number.
pub proof fn lemma_u64_dec_round_trip(n: u64)
    ensures
        parse_u64_spec(dec_bytes(n as int)) == Some(n),
{
    lemma_dec_bytes_canonical(n as int);
    lemma_dec_bytes_value(n as int);
    assert(dec_bytes(n as int)[0] != PLUS_SIGN);
}

} // verus!
