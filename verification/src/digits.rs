//! Decimal digit strings: the byte-level form of the non-negative integers
//! stored in a timesheet file.

use vstd::prelude::*;

verus! {

pub open spec fn is_digit(b: u8) -> bool {
    48 <= b <= 57
}

pub open spec fn all_digits(t: Seq<u8>) -> bool {
    forall|i: int| 0 <= i < t.len() ==> is_digit(t[i])
}

/// The canonical decimal digits of `n`: no sign, no leading zero except in `0`
/// itself. Meaningful for `n >= 0`.
pub open spec fn dec_of(n: int) -> Seq<u8>
    decreases n,
{
    if n < 10 {
        seq![(48 + n) as u8]
    } else {
        dec_of(n / 10) + seq![(48 + n % 10) as u8]
    }
}

/// The value of a digit string read in base 10.
pub open spec fn dec_val(t: Seq<u8>) -> int
    decreases t.len(),
{
    if t.len() == 0 {
        0
    } else {
        dec_val(t.drop_last()) * 10 + (t.last() - 48)
    }
}

/// A string that parses as one stored hours value: at least one byte, all
/// decimal digits, and a value that fits in a `u64`.
pub open spec fn valid_token(t: Seq<u8>) -> bool {
    t.len() >= 1 && all_digits(t) && dec_val(t) <= u64::MAX as int
}

pub proof fn lemma_dec_of_digits(n: int)
    requires
        n >= 0,
    ensures
        dec_of(n).len() >= 1,
        all_digits(dec_of(n)),
    decreases n,
{
    if n < 10 {
        assert(dec_of(n) == seq![(48 + n) as u8]);
        assert(is_digit(dec_of(n)[0]));
    } else {
        lemma_dec_of_digits(n / 10);
        let a = dec_of(n / 10);
        let last = seq![(48 + n % 10) as u8];
        assert(is_digit(last[0]));
        assert forall|i: int| 0 <= i < (a + last).len() implies is_digit((a + last)[i]) by {
            if i < a.len() {
                assert((a + last)[i] == a[i]);
            } else {
                assert((a + last)[i] == last[i - a.len()]);
            }
        }
    }
}

/// Reading back the canonical digits of `n` gives `n`.
pub proof fn lemma_dec_val_of(n: int)
    requires
        n >= 0,
    ensures
        dec_val(dec_of(n)) == n,
    decreases n,
{
    if n < 10 {
        let s = dec_of(n);
        assert(s =~= seq![(48 + n) as u8]);
        assert(s.drop_last() =~= Seq::<u8>::empty());
        assert(dec_val(s.drop_last()) == 0);
        assert(s.last() == (48 + n) as u8);
        assert(dec_val(s) == dec_val(s.drop_last()) * 10 + (s.last() - 48));
        assert(s.last() - 48 == n);
    } else {
        lemma_dec_val_of(n / 10);
        let a = dec_of(n / 10);
        let s = a + seq![(48 + n % 10) as u8];
        assert(s.drop_last() =~= a);
        assert(s.last() == (48 + n % 10) as u8);
        assert(dec_val(s) == (n / 10) * 10 + n % 10);
    }
}

pub proof fn lemma_dec_val_nonneg(t: Seq<u8>)
    requires
        all_digits(t),
    ensures
        dec_val(t) >= 0,
    decreases t.len(),
{
    if t.len() > 0 {
        assert(all_digits(t.drop_last()));
        assert(is_digit(t.last()));
        lemma_dec_val_nonneg(t.drop_last());
    }
}

/// A digit string's value never shrinks as more digits are appended.
pub proof fn lemma_dec_val_take_mono(t: Seq<u8>, i: int, j: int)
    requires
        all_digits(t),
        0 <= i <= j <= t.len(),
    ensures
        dec_val(t.take(i)) <= dec_val(t.take(j)),
    decreases j - i,
{
    if i < j {
        lemma_dec_val_take_mono(t, i, j - 1);
        let s = t.take(j);
        assert(s.drop_last() =~= t.take(j - 1));
        assert(s.last() == t[j - 1]);
        assert(is_digit(t[j - 1]));
        assert(all_digits(t.take(j - 1)));
        lemma_dec_val_nonneg(t.take(j - 1));
        assert(dec_val(t.take(j)) == dec_val(t.take(j - 1)) * 10 + (t[j - 1] - 48));
    }
}

/// Appends the decimal digits of `n` to `out`.
pub fn push_decimal(out: &mut Vec<u8>, n: u64)
    ensures
        final(out)@ == old(out)@ + dec_of(n as int),
    decreases n,
{
    if n < 10 {
        out.push(48 + n as u8);
        assert(out@ =~= old(out)@ + dec_of(n as int));
    } else {
        push_decimal(out, n / 10);
        out.push(48 + (n % 10) as u8);
        assert(out@ =~= old(out)@ + dec_of(n as int));
    }
}

/// Zero digits used to left-pad a number to a fixed width.
pub open spec fn pad_zeros(k: int) -> Seq<u8> {
    Seq::new(if k >= 0 {
        k as nat
    } else {
        0
    }, |i: int| 48u8)
}

/// The decimal digits of `n`, left-padded with zeros to at least `width`
/// bytes, as the file format writes years, months, and days.
pub open spec fn dec_pad(n: int, width: int) -> Seq<u8> {
    pad_zeros(width - dec_of(n).len()) + dec_of(n)
}

pub proof fn lemma_dec_pad_digits(n: int, width: int)
    requires
        n >= 0,
    ensures
        dec_pad(n, width).len() >= 1,
        all_digits(dec_pad(n, width)),
{
    lemma_dec_of_digits(n);
    let z = pad_zeros(width - dec_of(n).len());
    let s = dec_pad(n, width);
    assert forall|i: int| 0 <= i < s.len() implies is_digit(s[i]) by {
        if i < z.len() {
            assert(s[i] == z[i]);
        } else {
            assert(s[i] == dec_of(n)[i - z.len()]);
        }
    }
}

/// Appends `dec_pad(n, width)` to `out`.
pub fn push_decimal_padded(out: &mut Vec<u8>, n: u64, width: usize)
    ensures
        final(out)@ == old(out)@ + dec_pad(n as int, width as int),
{
    let mut digits: Vec<u8> = Vec::new();
    push_decimal(&mut digits, n);
    let pad: usize = if width > digits.len() {
        width - digits.len()
    } else {
        0
    };
    let ghost zs = pad_zeros(width - dec_of(n as int).len());
    assert(zs.len() == pad);
    let mut j: usize = 0;
    while j < pad
        invariant
            j <= pad,
            zs == pad_zeros(width - dec_of(n as int).len()),
            zs.len() == pad,
            digits@ == dec_of(n as int),
            out@ == old(out)@ + zs.take(j as int),
        decreases pad - j,
    {
        out.push(48);
        assert(out@ =~= old(out)@ + zs.take(j as int + 1));
        j = j + 1;
    }
    assert(zs.take(pad as int) =~= zs);
    let mut k: usize = 0;
    while k < digits.len()
        invariant
            k <= digits@.len(),
            zs == pad_zeros(width - dec_of(n as int).len()),
            digits@ == dec_of(n as int),
            out@ == old(out)@ + zs + digits@.take(k as int),
        decreases digits@.len() - k,
    {
        let b = digits[k];
        out.push(b);
        assert(out@ =~= old(out)@ + zs + digits@.take(k as int + 1));
        k = k + 1;
    }
    assert(digits@.take(digits@.len() as int) =~= digits@);
    assert(out@ =~= old(out)@ + dec_pad(n as int, width as int));
}

/// Reads a token as a non-negative integer: `None` on an empty token, a byte
/// that is no decimal digit, or a value over `u64::MAX`.
pub fn token_value(t: &Vec<u8>) -> (r: Option<u64>)
    ensures
        match r {
            Some(v) => valid_token(t@) && v as int == dec_val(t@),
            None => !valid_token(t@),
        },
{
    if t.len() == 0 {
        return None;
    }
    let mut acc: u64 = 0;
    let mut i: usize = 0;
    while i < t.len()
        invariant
            i <= t@.len(),
            forall|j: int| 0 <= j < i ==> is_digit(t@[j]),
            acc as int == dec_val(t@.take(i as int)),
        decreases t@.len() - i,
    {
        let b = t[i];
        if b < 48 || b > 57 {
            assert(!is_digit(t@[i as int]));
            return None;
        }
        let d: u64 = (b - 48) as u64;
        proof {
            assert(t@.take(i as int + 1).drop_last() =~= t@.take(i as int));
            assert(t@.take(i as int + 1).last() == t@[i as int]);
            assert(dec_val(t@.take(i as int + 1)) == acc as int * 10 + d as int);
        }
        if acc > (u64::MAX - d) / 10 {
            proof {
                let m = u64::MAX as int;
                assert((m - d) == 10 * ((m - d) / 10) + (m - d) % 10);
                assert(acc as int * 10 + d as int > m);
                if all_digits(t@) {
                    lemma_dec_val_take_mono(t@, i as int + 1, t@.len() as int);
                    assert(t@.take(t@.len() as int) =~= t@);
                    assert(dec_val(t@) > m);
                }
                assert(!valid_token(t@));
            }
            return None;
        }
        proof {
            let m = u64::MAX as int;
            assert((m - d) == 10 * ((m - d) / 10) + (m - d) % 10);
            assert(acc as int * 10 + d as int <= m);
        }
        acc = acc * 10 + d;
        i = i + 1;
    }
    assert(t@.take(t@.len() as int) =~= t@);
    Some(acc)
}

} // verus!
