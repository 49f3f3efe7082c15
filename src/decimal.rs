use vstd::prelude::*;

verus! {

/// An ASCII decimal digit.
pub open spec fn is_digit(b: u8) -> bool {
    48 <= b <= 57
}

pub open spec fn all_digits(s: Seq<u8>) -> bool {
    forall|i: int| 0 <= i < s.len() ==> is_digit(#[trigger] s[i])
}

/// The number that a run of decimal digits writes, most significant first.
pub open spec fn digits_value(s: Seq<u8>) -> nat
    decreases s.len(),
{
    if s.len() == 0 {
        0
    } else {
        10 * digits_value(s.drop_last()) + (s.last() - 48) as nat
    }
}

/// A numeral as std's integer parsers read it: an optional `+` or `-`, then at
/// least one digit. The result is whether a `-` was written, and the magnitude.
pub open spec fn numeral(s: Seq<u8>) -> Option<(bool, nat)> {
    if s.len() > 0 && (s[0] == 45 || s[0] == 43) {
        let r = s.drop_first();
        if r.len() > 0 && all_digits(r) {
            Some((s[0] == 45, digits_value(r)))
        } else {
            None
        }
    } else if s.len() > 0 && all_digits(s) {
        Some((false, digits_value(s)))
    } else {
        None
    }
}

/// The value of `s` read as an `i64`, as `str::parse::<i64>` reads it.
pub open spec fn i64_value(s: Seq<u8>) -> Option<i64> {
    match numeral(s) {
        Some((neg, m)) => {
            let v: int = if neg { -(m as int) } else { m as int };
            if i64::MIN <= v <= i64::MAX { Some(v as i64) } else { None }
        },
        None => None,
    }
}

/// The value of `s` read as an unsigned integer: no `-` is accepted, not even before zero.
pub open spec fn unsigned_value(s: Seq<u8>) -> Option<nat> {
    match numeral(s) {
        Some((neg, m)) => if neg { None } else { Some(m) },
        None => None,
    }
}

/// The digits of `n` in base ten, without leading zeros.
pub open spec fn digits_of(n: nat) -> Seq<u8>
    decreases n,
{
    if n < 10 {
        seq![(48 + n) as u8]
    } else {
        digits_of(n / 10).push((48 + n % 10) as u8)
    }
}

/// The decimal text of `n`, with a `-` before a negative number.
pub open spec fn decimal(n: int) -> Seq<u8> {
    if n < 0 {
        seq![45u8] + digits_of((-n) as nat)
    } else {
        digits_of(n as nat)
    }
}

pub proof fn lemma_digits_of(n: nat)
    ensures
        digits_of(n).len() > 0,
        all_digits(digits_of(n)),
        digits_value(digits_of(n)) == n,
    decreases n,
{
    if n >= 10 {
        lemma_digits_of(n / 10);
        let d = digits_of(n);
        assert(d.drop_last() =~= digits_of(n / 10));
        assert(d.last() == (48 + n % 10) as u8);
        assert(n == 10 * (n / 10) + n % 10);
        assert(digits_value(d) == 10 * digits_value(digits_of(n / 10)) + (n % 10));
    } else {
        let d = digits_of(n);
        assert(d.drop_last() =~= Seq::<u8>::empty());
        assert(d.last() == (48 + n) as u8);
        assert(digits_value(d) == 10 * digits_value(d.drop_last()) + (d.last() - 48) as nat);
        assert(digits_value(Seq::<u8>::empty()) == 0);
    }
}

/// The decimal text of a number reads back as that number.
pub proof fn lemma_decimal_numeral(n: int)
    ensures
        numeral(decimal(n)) == Some((n < 0, abs_int(n))),
        all_digits(decimal(n)) <==> n >= 0,
        decimal(n).len() > 0,
{
    if n < 0 {
        let m = (-n) as nat;
        lemma_digits_of(m);
        let s = decimal(n);
        assert(s.drop_first() =~= digits_of(m));
        assert(!is_digit(s[0]));
    } else {
        lemma_digits_of(n as nat);
    }
}

pub open spec fn abs_int(n: int) -> nat {
    if n < 0 { (-n) as nat } else { n as nat }
}

pub proof fn lemma_i64_value_decimal(n: i64)
    ensures
        i64_value(decimal(n as int)) == Some(n),
{
    lemma_decimal_numeral(n as int);
}

pub proof fn lemma_unsigned_value_decimal(n: nat)
    ensures
        unsigned_value(decimal(n as int)) == Some(n),
        i64_value(decimal(n as int)) == (if n <= i64::MAX { Some(n as i64) } else { None::<i64> }),
{
    lemma_decimal_numeral(n as int);
}

proof fn lemma_digits_value_prefix(s: Seq<u8>, i: int)
    requires
        0 <= i <= s.len(),
    ensures
        digits_value(s.subrange(0, i)) <= digits_value(s),
    decreases s.len() - i,
{
    if i < s.len() {
        lemma_digits_value_prefix(s, i + 1);
        assert(s.subrange(0, i + 1).drop_last() =~= s.subrange(0, i));
    } else {
        assert(s.subrange(0, i) =~= s);
    }
}

/// Reads the digits of `s` from `start` on. `None` when one of them is no
/// digit, or when their value does not fit in a `u128`.
fn digits_u128(s: &[u8], start: usize) -> (r: Option<u128>)
    requires
        start <= s@.len(),
    ensures
        ({
            let t = s@.subrange(start as int, s@.len() as int);
            match r {
                Some(v) => all_digits(t) && digits_value(t) == v,
                None => !all_digits(t) || digits_value(t) > u128::MAX,
            }
        }),
{
    let mut acc: u128 = 0;
    let mut i: usize = start;
    while i < s.len()
        invariant
            start <= i <= s@.len(),
            all_digits(s@.subrange(start as int, i as int)),
            acc == digits_value(s@.subrange(start as int, i as int)),
        decreases s@.len() - i,
    {
        let b = s[i];
        let t = Ghost(s@.subrange(start as int, (i + 1) as int));
        assert(t@.drop_last() =~= s@.subrange(start as int, i as int));
        if b < 48 || b > 57 {
            proof {
                let whole = s@.subrange(start as int, s@.len() as int);
                assert(whole[i - start] == b);
            }
            return None;
        }
        let d: u128 = (b - 48) as u128;
        if acc > (u128::MAX - d) / 10 {
            proof {
                let whole = s@.subrange(start as int, s@.len() as int);
                assert(digits_value(t@) == 10 * acc + d);
                assert(10 * acc + d > u128::MAX) by (nonlinear_arith)
                    requires
                        acc > (u128::MAX - d) / 10,
                        d <= 9,
                ;
                assert(whole.subrange(0, i + 1 - start) =~= t@);
                lemma_digits_value_prefix(whole, i + 1 - start);
            }
            return None;
        }
        proof {
            assert(10 * acc + d <= u128::MAX) by (nonlinear_arith)
                requires
                    acc <= (u128::MAX - d) / 10,
                    d <= 9,
            ;
        }
        acc = acc * 10 + d;
        i = i + 1;
        assert(all_digits(t@)) by {
            assert forall|j: int| 0 <= j < t@.len() implies is_digit(#[trigger] t@[j]) by {
                if j < t@.len() - 1 {
                    assert(t@[j] == s@.subrange(start as int, (i - 1) as int)[j]);
                }
            }
        }
    }
    assert(s@.subrange(start as int, i as int) =~= s@.subrange(start as int, s@.len() as int));
    Some(acc)
}

/// Reads `s` as a numeral: whether it has a `-`, and its magnitude. `None`
/// when `s` is no numeral or its magnitude does not fit in a `u128`.
pub fn scan_numeral(s: &[u8]) -> (r: Option<(bool, u128)>)
    ensures
        match r {
            Some((neg, m)) => numeral(s@) == Some((neg, m as nat)),
            None => numeral(s@) is None || numeral(s@).unwrap().1 > u128::MAX,
        },
{
    if s.len() == 0 {
        return None;
    }
    let signed = s[0] == 45 || s[0] == 43;
    let start: usize = if signed { 1 } else { 0 };
    if signed && s.len() == 1 {
        return None;
    }
    let r = digits_u128(s, start);
    proof {
        if signed {
            assert(s@.subrange(1, s@.len() as int) =~= s@.drop_first());
        } else {
            assert(s@.subrange(0, s@.len() as int) =~= s@);
        }
    }
    match r {
        Some(v) => Some((s[0] == 45, v)),
        None => None,
    }
}

/// `str::parse::<i64>` on the text that `s` holds.
pub fn parse_i64(s: &[u8]) -> (r: Option<i64>)
    ensures
        r == i64_value(s@),
{
    match scan_numeral(s) {
        Some((neg, m)) => {
            if neg {
                if m <= 9223372036854775808 {
                    Some((0i128 - (m as i128)) as i64)
                } else {
                    None
                }
            } else if m <= 9223372036854775807 {
                Some(m as i64)
            } else {
                None
            }
        },
        None => None,
    }
}

/// `str::parse::<u128>` on the text that `s` holds.
pub fn parse_u128(s: &[u8]) -> (r: Option<u128>)
    ensures
        match r {
            Some(v) => unsigned_value(s@) == Some(v as nat),
            None => unsigned_value(s@) is None || unsigned_value(s@).unwrap() > u128::MAX,
        },
{
    match scan_numeral(s) {
        Some((neg, m)) => if neg { None } else { Some(m) },
        None => None,
    }
}

/// `str::parse::<u64>` on the text that `s` holds.
pub fn parse_u64(s: &[u8]) -> (r: Option<u64>)
    ensures
        match r {
            Some(v) => unsigned_value(s@) == Some(v as nat),
            None => unsigned_value(s@) is None || unsigned_value(s@).unwrap() > u64::MAX,
        },
{
    match parse_u128(s) {
        Some(v) => if v <= 18446744073709551615 { Some(v as u64) } else { None },
        None => None,
    }
}

/// `str::parse::<usize>` on the text that `s` holds.
pub fn parse_usize(s: &[u8]) -> (r: Option<usize>)
    ensures
        match r {
            Some(v) => unsigned_value(s@) == Some(v as nat),
            None => unsigned_value(s@) is None || unsigned_value(s@).unwrap() > usize::MAX,
        },
{
    match parse_u128(s) {
        Some(v) => if v <= usize::MAX as u128 { Some(v as usize) } else { None },
        None => None,
    }
}

/// Appends the digits of `n` to `out`.
pub fn push_digits(n: u128, out: &mut Vec<u8>)
    ensures
        final(out)@ == old(out)@ + digits_of(n as nat),
    decreases n,
{
    if n >= 10 {
        push_digits(n / 10, out);
    }
    let d: u8 = (n % 10) as u8;
    out.push(48 + d);
    proof {
        if n >= 10 {
            assert(digits_of(n as nat) == digits_of((n / 10) as nat).push((48 + n % 10) as u8));
        }
    }
    assert(out@ =~= old(out)@ + digits_of(n as nat));
}

/// Appends the decimal text of `n` to `out`.
pub fn push_decimal(n: i128, out: &mut Vec<u8>)
    requires
        n > i128::MIN,
    ensures
        final(out)@ == old(out)@ + decimal(n as int),
{
    if n < 0 {
        out.push(45);
        let m: u128 = (0 - n) as u128;
        push_digits(m, out);
        assert(out@ =~= old(out)@ + decimal(n as int));
    } else {
        push_digits(n as u128, out);
    }
}

} // verus!
