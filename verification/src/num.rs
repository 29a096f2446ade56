//! Decimal encoding of unsigned integers for header values such as
//! `content-length` and `heart-beat`.

use vstd::arithmetic::div_mod::lemma_fundamental_div_mod;
use vstd::prelude::*;

verus! {

/// ASCII `0`.
pub const DIGIT_0: u8 = 48;

pub open spec fn is_digit(b: u8) -> bool {
    48 <= b && b <= 57
}

pub open spec fn all_digits(s: Seq<u8>) -> bool {
    forall|i: int| 0 <= i < s.len() ==> is_digit(s[i])
}

/// The decimal digit string of `n`, most significant digit first,
/// without leading zeros (`0` encodes as one digit).
pub open spec fn dec_seq(n: nat) -> Seq<u8>
    decreases n,
{
    if n < 10 {
        seq![(48 + n) as u8]
    } else {
        dec_seq(n / 10) + seq![(48 + n % 10) as u8]
    }
}

/// The value of a digit string folded left onto `acc`.
pub open spec fn digits_val(s: Seq<u8>, acc: nat) -> nat
    decreases s.len(),
{
    if s.len() == 0 {
        acc
    } else {
        digits_val(s.skip(1), acc * 10 + ((s[0] - 48) as nat))
    }
}

pub open spec fn pow10(k: nat) -> nat
    decreases k,
{
    if k == 0 {
        1
    } else {
        10 * pow10((k - 1) as nat)
    }
}

pub proof fn lemma_pow10_mono(a: nat, b: nat)
    requires
        a <= b,
    ensures
        pow10(a) <= pow10(b),
        pow10(a) >= 1,
    decreases b,
{
    if b > 0 {
        if a == b {
            lemma_pow10_mono((a - 1) as nat, (b - 1) as nat);
        } else {
            lemma_pow10_mono(a, (b - 1) as nat);
        }
    }
}

pub proof fn lemma_digits_val_concat(a: Seq<u8>, b: Seq<u8>, acc: nat)
    ensures
        digits_val(a + b, acc) == digits_val(b, digits_val(a, acc)),
    decreases a.len(),
{
    if a.len() == 0 {
        assert(a + b =~= b);
    } else {
        assert((a + b).skip(1) =~= a.skip(1) + b);
        assert((a + b)[0] == a[0]);
        lemma_digits_val_concat(a.skip(1), b, acc * 10 + ((a[0] - 48) as nat));
    }
}

pub proof fn lemma_dec_seq_digits(n: nat)
    ensures
        dec_seq(n).len() >= 1,
        all_digits(dec_seq(n)),
    decreases n,
{
    if n < 10 {
        assert(is_digit(dec_seq(n)[0]));
    } else {
        lemma_dec_seq_digits(n / 10);
        let d = seq![(48 + n % 10) as u8];
        assert forall|i: int| 0 <= i < dec_seq(n).len() implies is_digit(dec_seq(n)[i]) by {
            if i < dec_seq(n / 10).len() {
                assert(dec_seq(n)[i] == dec_seq(n / 10)[i]);
            } else {
                assert(dec_seq(n)[i] == d[i - dec_seq(n / 10).len()]);
            }
        }
    }
}

pub proof fn lemma_dec_seq_len(n: nat, k: nat)
    requires
        n < pow10(k),
        k >= 1,
    ensures
        dec_seq(n).len() <= k,
    decreases n,
{
    if n < 10 {
    } else {
        assert(pow10(k) == 10 * pow10((k - 1) as nat));
        if k == 1 {
            assert(pow10(1nat) == 10) by {
                reveal_with_fuel(pow10, 3);
            }
            assert(false);
        } else {
            assert(n / 10 < pow10((k - 1) as nat)) by (nonlinear_arith)
                requires
                    n < 10 * pow10((k - 1) as nat),
            ;
            lemma_dec_seq_len(n / 10, (k - 1) as nat);
        }
    }
}

/// Decoding a decimal digit string inverts encoding.
pub proof fn lemma_digits_val_dec_seq(n: nat)
    ensures
        digits_val(dec_seq(n), 0) == n,
    decreases n,
{
    if n < 10 {
        let s = dec_seq(n);
        assert(s.skip(1) =~= Seq::<u8>::empty());
        assert(digits_val(s.skip(1), ((s[0] - 48) as nat)) == ((s[0] - 48) as nat));
        assert(digits_val(s, 0) == n);
    } else {
        lemma_digits_val_dec_seq(n / 10);
        let hi = dec_seq(n / 10);
        let d = seq![(48 + n % 10) as u8];
        lemma_digits_val_concat(hi, d, 0);
        assert(d.skip(1) =~= Seq::<u8>::empty());
        let m = digits_val(hi, 0);
        assert(digits_val(d, m) == digits_val(d.skip(1), m * 10 + ((d[0] - 48) as nat)));
        assert(digits_val(d, m) == (n / 10) * 10 + n % 10);
        lemma_fundamental_div_mod(n as int, 10);
    }
}

pub proof fn lemma_pow10_20()
    ensures
        pow10(20) == 100000000000000000000nat,
{
    reveal_with_fuel(pow10, 21);
}

/// Writes `n` in decimal.
pub fn u64_to_dec(n: u64) -> (r: Vec<u8>)
    ensures
        r@ == dec_seq(n as nat),
    decreases n,
{
    if n < 10 {
        let mut out: Vec<u8> = Vec::new();
        out.push(48 + (n as u8));
        proof {
            assert(out@ =~= dec_seq(n as nat));
        }
        out
    } else {
        let mut out = u64_to_dec(n / 10);
        out.push(48 + ((n % 10) as u8));
        proof {
            assert(out@ =~= dec_seq((n / 10) as nat) + seq![(48 + (n as nat) % 10) as u8]);
            assert((n as nat) / 10 == (n / 10) as nat);
        }
        out
    }
}

} // verus!
