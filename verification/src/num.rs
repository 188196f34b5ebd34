//! Decimal notation for the wire format: rendering unsigned and signed
//! integers as ASCII digit strings, and parsing such strings back, in the
//! way `str::parse` does (an optional sign, then one or more digits).

use vstd::prelude::*;

verus! {

/// An ASCII decimal digit.
pub open spec fn is_digit(b: u8) -> bool {
    '0' as u8 <= b <= '9' as u8
}

/// Every byte of `s` is an ASCII decimal digit.
pub open spec fn all_digits(s: Seq<u8>) -> bool {
    forall|i: int| 0 <= i < s.len() ==> is_digit(#[trigger] s[i])
}

/// The value of a digit string read as a decimal number.
/// Meaningful only when `all_digits(s)` holds.
pub open spec fn dec_val(s: Seq<u8>) -> int
    decreases s.len(),
{
    if s.len() == 0 {
        0
    } else {
        dec_val(s.drop_last()) * 10 + (s.last() - '0' as u8)
    }
}

/// The canonical decimal digit string of a natural number: no sign and no
/// leading zeros (except for the single digit of zero itself).
pub open spec fn dec_digits(n: nat) -> Seq<u8>
    decreases n,
{
    if n < 10 {
        seq![('0' as u8 + n) as u8]
    } else {
        dec_digits(n / 10).push(('0' as u8 + n % 10) as u8)
    }
}

/// The canonical decimal notation of an integer: a `-` sign for negative
/// numbers, then the digits of the absolute value.
pub open spec fn dec_int(n: int) -> Seq<u8> {
    if n < 0 {
        seq!['-' as u8] + dec_digits((-n) as nat)
    } else {
        dec_digits(n as nat)
    }
}

/// The digit string of `n` holds digits only, is never empty, and reads
/// back as `n`.
pub proof fn lemma_dec_digits(n: nat)
    ensures
        all_digits(dec_digits(n)),
        dec_digits(n).len() >= 1,
        dec_val(dec_digits(n)) == n,
    decreases n,
{
    if n < 10 {
        assert(dec_digits(n) =~= seq![('0' as u8 + n) as u8]);
        assert(dec_digits(n).drop_last() =~= Seq::<u8>::empty());
        assert(dec_val(dec_digits(n)) == n) by {
            reveal_with_fuel(dec_val, 2);
        }
    } else {
        lemma_dec_digits(n / 10);
        let s = dec_digits(n / 10);
        let d = ('0' as u8 + n % 10) as u8;
        lemma_dec_val_snoc(s, d);
        assert(dec_val(s.push(d)) == (n / 10) * 10 + n % 10);
        assert(dec_digits(n) == s.push(d));
        assert((n / 10) * 10 + n % 10 == n);
        assert(dec_val(dec_digits(n)) == n);
        assert(forall|i: int|
            0 <= i < s.push(d).len() ==> is_digit(#[trigger] s.push(d)[i]));
    }
}

/// Reading one more digit multiplies the value by ten and adds the digit.
pub proof fn lemma_dec_val_snoc(s: Seq<u8>, d: u8)
    ensures
        dec_val(s.push(d)) == dec_val(s) * 10 + (d - '0' as u8),
{
    assert(s.push(d).drop_last() =~= s);
    assert(s.push(d).last() == d);
}

/// A digit string's value only grows when digits are appended.
pub proof fn lemma_dec_val_prefix(s: Seq<u8>, i: int)
    requires
        all_digits(s),
        0 <= i <= s.len(),
    ensures
        dec_val(s) >= dec_val(s.take(i)),
        dec_val(s) >= 0,
    decreases s.len() - i,
{
    if i == s.len() {
        assert(s.take(i) =~= s);
        lemma_dec_val_nonneg(s);
    } else {
        lemma_dec_val_prefix(s, i + 1);
        assert(s.take(i + 1) =~= s.take(i).push(s[i]));
        lemma_dec_val_snoc(s.take(i), s[i]);
        assert(s.take(i).len() < s.len());
        assert(all_digits(s.take(i))) by {
            assert(forall|j: int| 0 <= j < i ==> s.take(i)[j] == s[j]);
        }
        lemma_dec_val_nonneg(s.take(i));
        assert(dec_val(s.take(i)) * 10 >= dec_val(s.take(i))) by (nonlinear_arith)
            requires dec_val(s.take(i)) >= 0;
    }
}

/// A digit string's value is never negative.
pub proof fn lemma_dec_val_nonneg(s: Seq<u8>)
    requires
        all_digits(s),
    ensures
        dec_val(s) >= 0,
    decreases s.len(),
{
    if s.len() > 0 {
        assert(all_digits(s.drop_last())) by {
            assert(forall|j: int| 0 <= j < s.len() - 1 ==> s.drop_last()[j] == s[j]);
        }
        lemma_dec_val_nonneg(s.drop_last());
        assert(dec_val(s.drop_last()) * 10 >= 0) by (nonlinear_arith)
            requires dec_val(s.drop_last()) >= 0;
    }
}

/// Accumulates the decimal value of `v[start..end]`, as a `u64`.
/// Returns `None` when the range is empty, holds a non-digit, or names a
/// number that does not fit in a `u64`.
pub fn dec_value_u64(v: &Vec<u8>, start: usize, end: usize) -> (r: Option<u64>)
    requires
        start <= end <= v@.len(),
    ensures
        ({
            let s = v@.subrange(start as int, end as int);
            match r {
                Some(x) => s.len() >= 1 && all_digits(s) && dec_val(s) == x,
                None => s.len() == 0 || !all_digits(s) || dec_val(s) > u64::MAX,
            }
        }),
{
    let ghost s = v@.subrange(start as int, end as int);
    if start == end {
        return None;
    }
    let mut acc: u64 = 0;
    let mut i: usize = start;
    while i < end
        invariant
            start <= i <= end <= v@.len(),
            s == v@.subrange(start as int, end as int),
            all_digits(s.take(i - start)),
            dec_val(s.take(i - start)) == acc,
        decreases end - i,
    {
        let b = v[i];
        if b < 48 || b > 57 {
            proof {
                assert(s[i - start] == b);
            }
            return None;
        }
        let d = b - 48;
        if acc > (u64::MAX - d as u64) / 10 {
            proof {
                assert(dec_val(s.take(i - start + 1)) > u64::MAX) by {
                    assert(s.take(i - start + 1) =~= s.take(i - start).push(b));
                    lemma_dec_val_snoc(s.take(i - start), b);
                    assert(acc * 10 + d > u64::MAX) by (nonlinear_arith)
                        requires
                            acc > (u64::MAX - d as u64) / 10,
                            0 <= d <= 9,
                            acc >= 0,
                    ;
                }
                if all_digits(s) {
                    lemma_dec_val_prefix(s, i - start + 1);
                    assert(dec_val(s) >= dec_val(s.take(i - start + 1)));
                }
            }
            return None;
        }
        proof {
            assert(acc * 10 + d <= u64::MAX) by (nonlinear_arith)
                requires
                    acc <= (u64::MAX - d as u64) / 10,
                    0 <= d <= 9,
                    acc >= 0,
            ;
            assert(s.take(i - start + 1) =~= s.take(i - start).push(b));
            lemma_dec_val_snoc(s.take(i - start), b);
        }
        acc = acc * 10 + d as u64;
        i += 1;
    }
    proof {
        assert(s.take(end - start) =~= s);
    }
    Some(acc)
}

/// Renders `n` as its canonical decimal digit string.
pub fn u64_to_dec(n: u64) -> (r: Vec<u8>)
    ensures
        r@ == dec_digits(n as nat),
{
    let mut rev: Vec<u8> = Vec::new();
    if n < 10 {
        rev.push(48 + n as u8);
        proof {
            assert(rev@ =~= dec_digits(n as nat));
        }
        return rev;
    }
    let mut m: u64 = n;
    while m > 0
        invariant
            m > 0 ==> dec_digits(n as nat) =~= dec_digits(m as nat) + rev@.reverse(),
            m == 0 ==> dec_digits(n as nat) =~= rev@.reverse(),
        decreases m,
    {
        let d: u8 = 48 + (m % 10) as u8;
        proof {
            assert(rev@.push(d).reverse() =~= seq![d] + rev@.reverse());
            if m >= 10 {
                assert(dec_digits(m as nat) =~= dec_digits(m as nat / 10) + seq![d]);
                assert(dec_digits(m as nat / 10) + (seq![d] + rev@.reverse())
                    =~= (dec_digits(m as nat / 10) + seq![d]) + rev@.reverse());
            } else {
                assert(dec_digits(m as nat) =~= seq![d]);
                assert(seq![d] + rev@.reverse() =~= rev@.push(d).reverse());
            }
        }
        rev.push(d);
        m = m / 10;
    }
    let mut r: Vec<u8> = Vec::new();
    let mut i: usize = rev.len();
    while i > 0
        invariant
            i <= rev.len(),
            r@ =~= rev@.reverse().take(rev@.len() - i),
        decreases i,
    {
        i -= 1;
        r.push(rev[i]);
        proof {
            assert(r@ =~= rev@.reverse().take(rev@.len() - i));
        }
    }
    proof {
        assert(rev@.reverse().take(rev@.len() as int) =~= rev@.reverse());
    }
    r
}

/// Renders `n` in canonical signed decimal notation.
pub fn i64_to_dec(n: i64) -> (r: Vec<u8>)
    ensures
        r@ == dec_int(n as int),
{
    if n >= 0 {
        u64_to_dec(n as u64)
    } else {
        let neg: i128 = -(n as i128);
        assert(0 < neg <= u64::MAX);
        let mag: u64 = neg as u64;
        let digits = u64_to_dec(mag);
        let mut r: Vec<u8> = Vec::new();
        r.push(45);
        let mut i: usize = 0;
        while i < digits.len()
            invariant
                i <= digits@.len(),
                r@ =~= seq!['-' as u8] + digits@.take(i as int),
            decreases digits@.len() - i,
        {
            r.push(digits[i]);
            proof {
                assert(r@ =~= seq!['-' as u8] + digits@.take(i + 1));
            }
            i += 1;
        }
        proof {
            assert(digits@.take(digits@.len() as int) =~= digits@);
        }
        r
    }
}

/// How `str::parse::<u64>` reads a byte string: an optional leading `+`,
/// then one or more digits naming a value that fits in a `u64`.
pub open spec fn spec_parse_u64(s: Seq<u8>) -> Option<u64> {
    let d = if s.len() > 0 && s[0] == '+' as u8 {
        s.drop_first()
    } else {
        s
    };
    if d.len() >= 1 && all_digits(d) && dec_val(d) <= u64::MAX {
        Some(dec_val(d) as u64)
    } else {
        None
    }
}

/// How `str::parse::<i64>` reads a byte string: an optional sign, then one
/// or more digits naming a value in the range of an `i64`.
pub open spec fn spec_parse_i64(s: Seq<u8>) -> Option<i64> {
    let neg = s.len() > 0 && s[0] == '-' as u8;
    let d = if s.len() > 0 && (s[0] == '-' as u8 || s[0] == '+' as u8) {
        s.drop_first()
    } else {
        s
    };
    if d.len() >= 1 && all_digits(d) {
        if neg && dec_val(d) <= 0x8000_0000_0000_0000 {
            Some((-dec_val(d)) as i64)
        } else if !neg && dec_val(d) <= i64::MAX {
            Some(dec_val(d) as i64)
        } else {
            None
        }
    } else {
        None
    }
}

/// Parses an unsigned decimal, as `str::parse::<u64>` would.
pub fn parse_u64(v: &Vec<u8>) -> (r: Option<u64>)
    ensures
        r == spec_parse_u64(v@),
{
    let start: usize = if v.len() > 0 && v[0] == 43 {
        1
    } else {
        0
    };
    proof {
        if start == 1 {
            assert(v@.drop_first() =~= v@.subrange(1, v@.len() as int));
        } else {
            assert(v@ =~= v@.subrange(0, v@.len() as int));
        }
    }
    dec_value_u64(v, start, v.len())
}

/// Parses a signed decimal, as `str::parse::<i64>` would.
pub fn parse_i64(v: &Vec<u8>) -> (r: Option<i64>)
    ensures
        r == spec_parse_i64(v@),
{
    let neg = v.len() > 0 && v[0] == 45;
    let start: usize = if v.len() > 0 && (v[0] == 45 || v[0] == 43) {
        1
    } else {
        0
    };
    proof {
        if start == 1 {
            assert(v@.drop_first() =~= v@.subrange(1, v@.len() as int));
        } else {
            assert(v@ =~= v@.subrange(0, v@.len() as int));
        }
    }
    match dec_value_u64(v, start, v.len()) {
        None => None,
        Some(mag) => {
            if neg {
                if mag <= 0x8000_0000_0000_0000 {
                    Some((-(mag as i128)) as i64)
                } else {
                    None
                }
            } else {
                if mag <= i64::MAX as u64 {
                    Some(mag as i64)
                } else {
                    None
                }
            }
        },
    }
}

/// Parsing gives back what rendering produced: the decimal notation of any
/// `i64` reads as that same number.
pub proof fn lemma_parse_i64_roundtrip(n: i64)
    ensures
        spec_parse_i64(dec_int(n as int)) == Some(n),
{
    if n >= 0 {
        lemma_dec_digits(n as nat);
        let s = dec_digits(n as nat);
        assert(s[0] != '-' as u8 && s[0] != '+' as u8) by {
            assert(is_digit(s[0]));
        }
        assert(spec_parse_i64(s) == Some(n));
    } else {
        let mag = (-(n as int)) as nat;
        lemma_dec_digits(mag);
        let s = seq!['-' as u8] + dec_digits(mag);
        assert(s[0] == '-' as u8);
        assert(s.drop_first() =~= dec_digits(mag));
        assert(mag <= 0x8000_0000_0000_0000);
        assert(spec_parse_i64(s) == Some(n));
    }
}

} // verus!
