//! Decimal rendering of the integers that appear inside a PDF file:
//! object identifiers, stream lengths, and the ten-digit byte offsets
//! of the cross-reference table.

use vstd::prelude::*;

verus! {

/// The decimal digit characters of `n`, most significant first, as bytes.
pub open spec fn dec_digits(n: nat) -> Seq<u8>
    decreases n,
{
    if n < 10 {
        seq![(n + 48) as u8]
    } else {
        dec_digits(n / 10) + seq![(n % 10 + 48) as u8]
    }
}

/// `dec_digits` always yields at least one digit.
pub proof fn lemma_dec_digits_len(n: nat)
    ensures
        dec_digits(n).len() >= 1,
    decreases n,
{
    if n >= 10 {
        lemma_dec_digits_len(n / 10);
    }
}

/// Render `n` in decimal.
pub fn fmt_u64(n: u64) -> (r: Vec<u8>)
    ensures
        r@ == dec_digits(n as nat),
{
    let mut acc: Vec<u8> = Vec::new();
    let mut m: u64 = n;
    while m >= 10
        invariant
            dec_digits(n as nat) == dec_digits(m as nat) + acc@.reverse(),
        decreases m,
    {
        let d: u8 = (m % 10) as u8 + 48;
        proof {
            assert((acc@ + seq![d]).reverse() =~= seq![d] + acc@.reverse());
        }
        acc.push(d);
        m = m / 10;
    }
    let mut r: Vec<u8> = Vec::new();
    r.push(m as u8 + 48);
    let mut k: usize = acc.len();
    while k > 0
        invariant
            k <= acc@.len(),
            dec_digits(n as nat) == seq![(m + 48) as u8] + acc@.reverse(),
            r@ == seq![(m + 48) as u8] + acc@.skip(k as int).reverse(),
        decreases k,
    {
        k = k - 1;
        let d = acc[k];
        proof {
            assert(acc@.skip(k as int) =~= seq![d] + acc@.skip(k as int + 1));
            assert(acc@.skip(k as int).reverse() =~= acc@.skip(k as int + 1).reverse() + seq![d]);
        }
        r.push(d);
    }
    proof {
        assert(acc@.skip(0).reverse() == acc@.reverse());
        assert(acc@.skip(0) =~= acc@);
    }
    r
}

/// The decimal digits of `n` left-padded with zeros to at least ten
/// digits, as the cross-reference table requires.
pub open spec fn dec_pad10(n: nat) -> Seq<u8> {
    if dec_digits(n).len() >= 10 {
        dec_digits(n)
    } else {
        Seq::new((10 - dec_digits(n).len()) as nat, |i: int| 48u8) + dec_digits(n)
    }
}

/// Render `n` in decimal, zero-padded to ten digits.
pub fn fmt_u64_pad10(n: u64) -> (r: Vec<u8>)
    ensures
        r@ == dec_pad10(n as nat),
{
    let digits = fmt_u64(n);
    let mut r: Vec<u8> = Vec::new();
    if digits.len() < 10 {
        let pad: usize = 10 - digits.len();
        let mut i: usize = 0;
        while i < pad
            invariant
                i <= pad,
                pad == 10 - dec_digits(n as nat).len(),
                r@ =~= Seq::new(i as nat, |k: int| 48u8),
            decreases pad - i,
        {
            r.push(48);
            i = i + 1;
        }
        let mut j: usize = 0;
        while j < digits.len()
            invariant
                j <= digits@.len(),
                digits@ == dec_digits(n as nat),
                r@ =~= Seq::new(pad as nat, |k: int| 48u8) + digits@.take(j as int),
            decreases digits@.len() - j,
        {
            r.push(digits[j]);
            j = j + 1;
        }
        proof {
            assert(digits@.take(digits@.len() as int) =~= digits@);
        }
    } else {
        r = digits;
    }
    r
}

} // verus!
