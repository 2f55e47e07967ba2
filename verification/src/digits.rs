//! Decimal rendering of unsigned integers as ASCII byte sequences,
//! with the facts the path builders need: the rendering round-trips
//! through its numeric value, so distinct numbers render distinctly.

use vstd::prelude::*;
use vstd::arithmetic::div_mod::lemma_fundamental_div_mod;

verus! {

/// ASCII digit for a value below ten.
pub open spec fn digit_byte(d: nat) -> u8 {
    (48 + d) as u8
}

/// Decimal rendering of `n`, most significant digit first, no padding.
pub open spec fn dec_seq(n: nat) -> Seq<u8>
    decreases n,
{
    if n < 10 {
        seq![digit_byte(n)]
    } else {
        dec_seq(n / 10).push(digit_byte(n % 10))
    }
}

/// Numeric value of a digit sequence (digits are ASCII, most
/// significant first).
pub open spec fn seq_val(s: Seq<u8>) -> nat
    decreases s.len(),
{
    if s.len() == 0 {
        0
    } else {
        seq_val(s.drop_last()) * 10 + (if s.last() >= 48 {
            (s.last() - 48) as nat
        } else {
            0
        })
    }
}

/// `dec_seq(n)` is never empty.
pub proof fn lemma_dec_seq_len(n: nat)
    ensures
        dec_seq(n).len() >= 1,
    decreases n,
{
    if n >= 10 {
        lemma_dec_seq_len(n / 10);
    }
}

/// The rendering of `n` evaluates back to `n`.
pub proof fn lemma_dec_seq_val(n: nat)
    ensures
        seq_val(dec_seq(n)) == n,
    decreases n,
{
    if n < 10 {
        let s = dec_seq(n);
        assert(s =~= seq![digit_byte(n)]);
        assert(s.drop_last() =~= Seq::<u8>::empty());
        assert(seq_val(s.drop_last()) == 0);
        assert(s.last() == digit_byte(n));
        assert(seq_val(s) == 0 * 10 + n);
    } else {
        lemma_dec_seq_val(n / 10);
        let s = dec_seq(n);
        assert(s =~= dec_seq(n / 10).push(digit_byte(n % 10)));
        assert(s.drop_last() =~= dec_seq(n / 10));
        assert(s.last() == digit_byte(n % 10));
        assert(seq_val(s) == seq_val(dec_seq(n / 10)) * 10 + n % 10);
        lemma_fundamental_div_mod(n as int, 10);
    }
}

/// Distinct numbers have distinct renderings.
pub proof fn lemma_dec_seq_injective(a: nat, b: nat)
    requires
        dec_seq(a) == dec_seq(b),
    ensures
        a == b,
{
    lemma_dec_seq_val(a);
    lemma_dec_seq_val(b);
}

/// Rendering of `n`, zero-padded on the left to at least `width` bytes.
pub open spec fn dec_seq_pad(n: nat, width: nat) -> Seq<u8> {
    if dec_seq(n).len() >= width {
        dec_seq(n)
    } else {
        Seq::new((width - dec_seq(n).len()) as nat, |z: int| 48u8) + dec_seq(n)
    }
}

/// Appends the decimal rendering of `n` to `out`.
pub fn push_dec(n: u64, out: &mut Vec<u8>)
    ensures
        final(out)@ == old(out)@ + dec_seq(n as nat),
    decreases n,
{
    if n >= 10 {
        push_dec(n / 10, out);
        let d: u8 = (n % 10) as u8;
        out.push(48 + d);
        proof {
            assert(out@ =~= old(out)@ + dec_seq(n as nat));
        }
    } else {
        let d: u8 = n as u8;
        out.push(48 + d);
        proof {
            assert(out@ =~= old(out)@ + dec_seq(n as nat));
        }
    }
}

/// Appends the decimal rendering of `n`, left-padded with zeros to at
/// least `width` bytes, to `out`.
pub fn push_dec_pad(n: u32, width: usize, out: &mut Vec<u8>)
    ensures
        final(out)@ == old(out)@ + dec_seq_pad(n as nat, width as nat),
{
    let mut digits: Vec<u8> = Vec::new();
    push_dec(n as u64, &mut digits);
    proof {
        assert(digits@ =~= dec_seq(n as nat));
    }
    let mut pad: usize = digits.len();
    while pad < width
        invariant
            digits@.len() <= pad <= width || (pad == digits@.len() && pad >= width),
            digits@ == dec_seq(n as nat),
            out@ == old(out)@ + Seq::new((pad - digits@.len()) as nat, |z: int| 48u8),
        decreases width - pad,
    {
        out.push(48);
        pad = pad + 1;
        proof {
            assert(out@ =~= old(out)@ + Seq::new((pad - digits@.len()) as nat, |z: int| 48u8));
        }
    }
    let mut i: usize = 0;
    while i < digits.len()
        invariant
            0 <= i <= digits@.len(),
            digits@ == dec_seq(n as nat),
            pad >= digits@.len(),
            out@ == old(out)@ + Seq::new((pad - digits@.len()) as nat, |z: int| 48u8)
                + digits@.subrange(0, i as int),
        decreases digits@.len() - i,
    {
        let b: u8 = digits[i];
        out.push(b);
        i = i + 1;
        proof {
            assert(out@ =~= old(out)@ + Seq::new((pad - digits@.len()) as nat, |z: int| 48u8)
                + digits@.subrange(0, i as int));
        }
    }
    proof {
        assert(digits@.subrange(0, digits@.len() as int) =~= digits@);
        if digits@.len() >= width {
            assert(pad == digits@.len());
            assert(Seq::new((pad - digits@.len()) as nat, |z: int| 48u8) =~= Seq::<u8>::empty());
            assert(out@ =~= old(out)@ + dec_seq_pad(n as nat, width as nat));
        } else {
            assert(pad == width);
            assert(out@ =~= old(out)@ + dec_seq_pad(n as nat, width as nat));
        }
    }
}

} // verus!
