//! Base-2/8/10/16 numerals of multi-word values.
use crate::words::{div_small, lemma_val_split, lemma_val_zeros, mask_to, words_val};
use vstd::arithmetic::div_mod::{lemma_breakdown, lemma_fundamental_div_mod};
use vstd::arithmetic::power::{lemma_pow_positive, pow};
use vstd::arithmetic::power2::{lemma_pow2_pos, pow2};
use vstd::prelude::*;

verus! {

/// The character for digit `d` (lower-case letters above nine).
pub open spec fn digit_char(d: nat) -> char {
    if d == 0 { '0' } else if d == 1 { '1' } else if d == 2 { '2' } else if d == 3 { '3' }
    else if d == 4 { '4' } else if d == 5 { '5' } else if d == 6 { '6' } else if d == 7 { '7' }
    else if d == 8 { '8' } else if d == 9 { '9' } else if d == 10 { 'a' } else if d == 11 { 'b' }
    else if d == 12 { 'c' } else if d == 13 { 'd' } else if d == 14 { 'e' } else { 'f' }
}

/// The value of a digit character in any base up to 16 (either case), or 16 for a character
/// that is no digit.
pub open spec fn digit_of(c: char) -> nat {
    if '0' <= c && c <= '9' {
        (c as int - '0' as int) as nat
    } else if 'a' <= c && c <= 'f' {
        (c as int - 'a' as int + 10) as nat
    } else if 'A' <= c && c <= 'F' {
        (c as int - 'A' as int + 10) as nat
    } else {
        16
    }
}

/// Every character is a digit of base `b`.
pub open spec fn all_digits(s: Seq<char>, b: nat) -> bool {
    forall|i: int| 0 <= i < s.len() ==> digit_of(#[trigger] s[i]) < b
}

/// The value of a digit string in base `b`, most significant digit first.
pub open spec fn seq_val(s: Seq<char>, b: nat) -> nat
    decreases s.len(),
{
    if s.len() == 0 {
        0
    } else {
        seq_val(s.drop_last(), b) * b + digit_of(s.last())
    }
}

/// The `n` least significant base-`b` digits of `v`, most significant first.
pub open spec fn numeral(v: nat, b: nat, n: nat) -> Seq<char>
    decreases n,
{
    if n == 0 || b == 0 {
        Seq::empty()
    } else {
        numeral(v / b, b, (n - 1) as nat).push(digit_char(v % b))
    }
}

/// How many base-`b` digits `v` has (zero has one).
pub open spec fn digit_count(v: nat, b: nat) -> nat
    decreases v via digit_count_decreases
{
    if b < 2 || v < b {
        1
    } else {
        1 + digit_count(v / b, b)
    }
}

#[via_fn]
proof fn digit_count_decreases(v: nat, b: nat) {
    if !(b < 2 || v < b) {
        vstd::arithmetic::div_mod::lemma_div_decreases(v as int, b as int);
    }
}

/// How many base-`b` digits a value of `width` bits is printed with: as many as its largest
/// value has.
pub open spec fn pad_len(b: nat, width: nat) -> nat {
    digit_count((pow2(width) - 1) as nat, b)
}

pub proof fn lemma_digit_round(d: nat)
    requires
        d < 16,
    ensures
        digit_of(digit_char(d)) == d,
{
}

/// A numeral is made of digits of its base.
pub proof fn lemma_numeral_digits(v: nat, b: nat, n: nat)
    requires
        2 <= b <= 16,
    ensures
        numeral(v, b, n).len() == n,
        all_digits(numeral(v, b, n), b),
    decreases n,
{
    if n > 0 {
        lemma_numeral_digits(v / b, b, (n - 1) as nat);
        lemma_fundamental_div_mod(v as int, b as int);
        lemma_digit_round(v % b);
        let s = numeral(v, b, n);
        assert(s == numeral(v / b, b, (n - 1) as nat).push(digit_char(v % b)));
        assert forall|i: int| 0 <= i < s.len() implies digit_of(#[trigger] s[i]) < b by {
            if i < n - 1 {
                assert(s[i] == numeral(v / b, b, (n - 1) as nat)[i]);
            }
        }
    }
}

/// Reading a numeral back gives the value modulo `b^n`.
pub proof fn lemma_numeral_val(v: nat, b: nat, n: nat)
    requires
        2 <= b <= 16,
    ensures
        seq_val(numeral(v, b, n), b) == v % (pow(b as int, n) as nat),
    decreases n,
{
    lemma_pow_positive(b as int, n);
    if n == 0 {
        assert(pow(b as int, 0) == 1) by {
            vstd::arithmetic::power::lemma_pow0(b as int);
        }
        assert(numeral(v, b, 0) =~= Seq::<char>::empty());
    } else {
        let m = (n - 1) as nat;
        lemma_numeral_val(v / b, b, m);
        lemma_fundamental_div_mod(v as int, b as int);
        lemma_digit_round(v % b);
        let s = numeral(v, b, n);
        assert(s == numeral(v / b, b, m).push(digit_char(v % b)));
        assert(s.drop_last() =~= numeral(v / b, b, m));
        lemma_pow_positive(b as int, m);
        vstd::arithmetic::power::lemma_pow_adds(b as int, 1, m);
        vstd::arithmetic::power::lemma_pow1(b as int);
        assert(1 + m == n);
        lemma_breakdown(v as int, b as int, pow(b as int, m));
        let p = pow(b as int, m);
        let x = (v / b) % (p as nat);
        assert(x * b == b * x) by (nonlinear_arith);
        assert(seq_val(s, b) == seq_val(numeral(v / b, b, m), b) * b + v % b);
    }
}

/// A value is below `b` to the power of its digit count.
pub proof fn lemma_digit_count_bound(v: nat, b: nat)
    requires
        2 <= b,
    ensures
        v < pow(b as int, digit_count(v, b)),
    decreases v,
{
    let n = digit_count(v, b);
    vstd::arithmetic::power::lemma_pow1(b as int);
    if v >= b {
        lemma_fundamental_div_mod(v as int, b as int);
        vstd::arithmetic::div_mod::lemma_div_decreases(v as int, b as int);
        lemma_digit_count_bound(v / b, b);
        let m = digit_count(v / b, b);
        vstd::arithmetic::power::lemma_pow_adds(b as int, 1, m);
        let p = pow(b as int, m);
        let q = v / b;
        let r = v % b;
        assert(v < b * p) by (nonlinear_arith)
            requires
                v == b * q + r,
                r < b,
                q < p,
        ;
    }
}

/// Each character of a numeral is the character of a digit below the base.
pub proof fn lemma_numeral_char(v: nat, b: nat, n: nat, i: int)
    requires
        2 <= b <= 16,
        0 <= i < n,
    ensures
        exists|d: nat| d < b && numeral(v, b, n)[i] == digit_char(d),
    decreases n,
{
    lemma_numeral_digits(v / b, b, (n - 1) as nat);
    lemma_fundamental_div_mod(v as int, b as int);
    let s = numeral(v, b, n);
    assert(s == numeral(v / b, b, (n - 1) as nat).push(digit_char(v % b)));
    if i < n - 1 {
        lemma_numeral_char(v / b, b, (n - 1) as nat, i);
        assert(s[i] == numeral(v / b, b, (n - 1) as nat)[i]);
    } else {
        assert(s[i] == digit_char(v % b));
    }
}

/// Every value has at least one digit.
pub proof fn lemma_digit_count_pos(v: nat, b: nat)
    ensures
        digit_count(v, b) >= 1,
{
}

/// Relies on String::push: appends one character.
#[verifier::external_body]
pub(crate) fn push_char(s: &mut String, c: char)
    ensures
        final(s)@ == old(s)@.push(c),
{
    s.push(c);
}

/// The character of a digit below 16.
pub fn digit_to_char(d: u64) -> (c: char)
    requires
        d < 16,
    ensures
        c == digit_char(d as nat),
{
    if d == 0 { '0' } else if d == 1 { '1' } else if d == 2 { '2' } else if d == 3 { '3' }
    else if d == 4 { '4' } else if d == 5 { '5' } else if d == 6 { '6' } else if d == 7 { '7' }
    else if d == 8 { '8' } else if d == 9 { '9' } else if d == 10 { 'a' } else if d == 11 { 'b' }
    else if d == 12 { 'c' } else if d == 13 { 'd' } else if d == 14 { 'e' } else { 'f' }
}

/// Appends the `n` least significant base-`b` digits of the value of `w`.
pub fn push_digits(w: [u64; 8], b: u64, n: usize, out: &mut String)
    requires
        2 <= b <= 16,
    ensures
        final(out)@ == old(out)@ + numeral(words_val(w@), b as nat, n as nat),
    decreases n,
{
    if n == 0 {
        assert(old(out)@ + Seq::<char>::empty() =~= old(out)@);
        return;
    }
    let mut q = w;
    let r = div_small(&mut q, b);
    proof {
        lemma_fundamental_div_mod(words_val(w@) as int, b as int);
        vstd::arithmetic::div_mod::lemma_fundamental_div_mod_converse(
            words_val(w@) as int,
            b as int,
            words_val(q@) as int,
            r as int,
        );
    }
    push_digits(q, b, n - 1, out);
    let c = digit_to_char(r);
    let ghost mid = out@;
    push_char(out, c);
    proof {
        let v = words_val(w@);
        assert(numeral(v, b as nat, n as nat) == numeral(v / b as nat, b as nat, (n - 1) as nat).push(
            digit_char(v % b as nat),
        ));
        assert(out@ =~= old(out)@ + numeral(v, b as nat, n as nat));
    }
}

/// The digits of `2^width - 1` in base `b`.
pub fn pad_digits(width: usize, b: u64) -> (n: usize)
    requires
        1 <= width <= 512,
        2 <= b <= 16,
    ensures
        n == pad_len(b as nat, width as nat),
        n <= 512,
{
    let mut w: [u64; 8] = [0xffff_ffff_ffff_ffffu64; 8];
    proof {
        lemma_all_ones(w@);
    }
    mask_to(&mut w, width);
    proof {
        lemma_ones_mod(width as nat);
        lemma_pow2_pos(width as nat);
        vstd::arithmetic::power2::lemma2_to64();
        if width < 512 {
            vstd::arithmetic::power2::lemma_pow2_strictly_increases(width as nat, 512);
        }
    }
    let ghost top: nat = (pow2(width as nat) - 1) as nat;
    assert(words_val(w@) == top);
    assert(pow2(0) == 1);
    assert(top < pow2(512));
    assert(pow2((1 - 1) as nat) == 1);
    let mut n: usize = 1;
    loop
        invariant
            1 <= n <= 512,
            2 <= b <= 16,
            top == (pow2(width as nat) - 1) as nat,
            w@.len() == 8,
            n - 1 + digit_count(words_val(w@), b as nat) == digit_count(top, b as nat),
            words_val(w@) * pow2((n - 1) as nat) < pow2(512),
        decreases words_val(w@),
    {
        let ghost before = words_val(w@);
        let r = div_small(&mut w, b);
        proof {
            lemma_fundamental_div_mod(before as int, b as int);
            vstd::arithmetic::div_mod::lemma_fundamental_div_mod_converse(
                before as int,
                b as int,
                words_val(w@) as int,
                r as int,
            );
        }
        if is_zero(&w) {
            proof {
                assert(before < b);
                assert(digit_count(before, b as nat) == 1);
            }
            return n;
        }
        proof {
            let a = words_val(w@);
            assert(before >= b) by (nonlinear_arith)
                requires
                    before == a * b + r,
                    a >= 1,
            ;
            assert(digit_count(before, b as nat) == 1 + digit_count(a, b as nat));
            vstd::arithmetic::power2::lemma_pow2_unfold(n as nat);
            let p = pow2((n - 1) as nat);
            lemma_pow2_pos((n - 1) as nat);
            assert(a * (2 * p) <= before * p) by (nonlinear_arith)
                requires
                    before == a * b + r,
                    b >= 2,
                    p > 0,
            ;
            assert(a * pow2(n as nat) < pow2(512));
            assert(pow2(n as nat) < pow2(512)) by (nonlinear_arith)
                requires
                    a >= 1,
                    a * pow2(n as nat) < pow2(512),
            ;
            if n >= 512 {
                vstd::arithmetic::power2::lemma_pow2_strictly_increases(512, n as nat);
                if n == 512 {}
            }
        }
        n = n + 1;
    }
}

/// Whether every word is zero.
pub fn is_zero(w: &[u64; 8]) -> (r: bool)
    ensures
        r == (words_val(w@) == 0),
{
    let mut i: usize = 0;
    while i < 8
        invariant
            0 <= i <= 8,
            w@.len() == 8,
            forall|j: int| 0 <= j < i ==> w@[j] == 0,
        decreases 8 - i,
    {
        if w[i] != 0 {
            proof {
                lemma_val_split(w@, i as int);
                crate::words::lemma_val_skip(w@, i as int);
                lemma_pow2_pos(64 * i as nat);
                let h = words_val(w@.skip(i as int + 1));
                assert(words_val(w@.skip(i as int)) > 0);
                assert(pow2(64 * i as nat) * words_val(w@.skip(i as int)) > 0) by (nonlinear_arith)
                    requires
                        pow2(64 * i as nat) > 0,
                        words_val(w@.skip(i as int)) > 0,
                ;
            }
            return false;
        }
        i = i + 1;
    }
    proof {
        lemma_val_zeros(w@);
    }
    true
}

/// Eight all-ones words stand for `2^512 - 1`.
proof fn lemma_all_ones(w: Seq<u64>)
    requires
        w.len() == 8,
        forall|i: int| 0 <= i < 8 ==> w[i] == 0xffff_ffff_ffff_ffff,
    ensures
        words_val(w) == pow2(512) - 1,
{
    lemma_ones(w);
}

proof fn lemma_ones(w: Seq<u64>)
    requires
        forall|i: int| 0 <= i < w.len() ==> w[i] == 0xffff_ffff_ffff_ffff,
    ensures
        words_val(w) + 1 == pow2(64 * w.len()),
    decreases w.len(),
{
    crate::words::lemma_pow2_64();
    if w.len() == 0 {
        vstd::arithmetic::power2::lemma2_to64();
    } else {
        lemma_ones(w.drop_first());
        let k = (64 * (w.len() - 1)) as nat;
        vstd::arithmetic::power2::lemma_pow2_adds(64, k);
        assert(64 + k == 64 * w.len());
        let v = words_val(w.drop_first());
        assert(0xffff_ffff_ffff_ffff + crate::words::word_base() * v + 1 == crate::words::word_base()
            * (v + 1)) by (nonlinear_arith)
            requires
                crate::words::word_base() == 0x1_0000_0000_0000_0000nat,
        ;
    }
}

/// `(2^512 - 1) mod 2^width` is `2^width - 1`.
proof fn lemma_ones_mod(width: nat)
    requires
        1 <= width <= 512,
    ensures
        (pow2(512) - 1) as nat % pow2(width) == pow2(width) - 1,
{
    let hi = pow2((512 - width) as nat);
    let lo = pow2(width);
    vstd::arithmetic::power2::lemma_pow2_adds(width, (512 - width) as nat);
    assert(width + (512 - width) as nat == 512);
    lemma_pow2_pos(width);
    lemma_pow2_pos((512 - width) as nat);
    let top = pow2(512);
    assert(top - 1 == (hi - 1) * lo + (lo - 1)) by (nonlinear_arith)
        requires
            top == lo * hi,
            hi >= 1,
    ;
    vstd::arithmetic::div_mod::lemma_fundamental_div_mod_converse(
        (pow2(512) - 1) as int,
        lo as int,
        (hi - 1) as int,
        (lo - 1) as int,
    );
}

} // verus!
