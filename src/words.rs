//! Little-endian multi-word unsigned arithmetic on eight 64-bit words.
use vstd::arithmetic::power2::{lemma2_to64, lemma_pow2_adds, lemma_pow2_pos, pow2};
use vstd::bits::lemma_u64_shl_is_mul;
use vstd::arithmetic::div_mod::{
    lemma_fundamental_div_mod, lemma_fundamental_div_mod_converse, lemma_mod_multiples_vanish,
    lemma_small_mod,
};
use vstd::prelude::*;

verus! {

/// Number of 64-bit words in a value.
pub const WORDS: usize = 8;

/// The weight of one word, 2^64.
pub open spec fn word_base() -> nat {
    0x1_0000_0000_0000_0000
}

/// The number that a little-endian sequence of words stands for.
pub open spec fn words_val(w: Seq<u64>) -> nat
    decreases w.len(),
{
    if w.len() == 0 {
        0
    } else {
        w[0] as nat + word_base() * words_val(w.drop_first())
    }
}

pub proof fn lemma_pow2_64()
    ensures
        pow2(64) == word_base(),
{
    lemma2_to64();
}

/// Appending a most significant word adds its weighted value.
pub proof fn lemma_val_push(s: Seq<u64>, x: u64)
    ensures
        words_val(s.push(x)) == words_val(s) + x as nat * pow2(64 * s.len()),
    decreases s.len(),
{
    lemma_pow2_64();
    if s.len() == 0 {
        assert(s.push(x).drop_first() =~= Seq::<u64>::empty());
        assert(words_val(Seq::<u64>::empty()) == 0);
        assert(pow2(0) == 1) by {
            lemma2_to64();
        }
    } else {
        assert(s.push(x).drop_first() =~= s.drop_first().push(x));
        lemma_val_push(s.drop_first(), x);
        let k = 64 * (s.len() - 1);
        lemma_pow2_adds(64, k as nat);
        assert(64 + k == 64 * s.len());
        let v = words_val(s.drop_first());
        assert(word_base() * (v + x as nat * pow2(k as nat)) == word_base() * v + x as nat * (
        word_base() * pow2(k as nat))) by (nonlinear_arith);
    }
}

/// A value of `n` words is below `2^(64 n)`.
pub proof fn lemma_val_bound(s: Seq<u64>)
    ensures
        words_val(s) < pow2(64 * s.len()),
    decreases s.len(),
{
    lemma_pow2_64();
    if s.len() == 0 {
        lemma2_to64();
    } else {
        lemma_val_bound(s.drop_first());
        let k = 64 * (s.len() - 1);
        lemma_pow2_adds(64, k as nat);
        assert(64 + k == 64 * s.len());
        let v = words_val(s.drop_first());
        let p = pow2(k as nat);
        assert(s[0] as nat + word_base() * v < word_base() * p) by (nonlinear_arith)
            requires
                v < p,
                s[0] < word_base(),
        ;
    }
}

/// A sequence of zero words stands for zero.
pub proof fn lemma_val_zeros(s: Seq<u64>)
    requires
        forall|i: int| 0 <= i < s.len() ==> s[i] == 0,
    ensures
        words_val(s) == 0,
    decreases s.len(),
{
    if s.len() > 0 {
        lemma_val_zeros(s.drop_first());
    }
}

/// Multiplies the value by `m` and adds `a`; returns the word that overflows the top.
pub fn mul_add(w: &mut [u64; 8], m: u64, a: u64) -> (carry: u64)
    ensures
        words_val(final(w)@) + carry as nat * pow2(512) == words_val(old(w)@) * m as nat
            + a as nat,
{
    let ghost orig = w@;
    let mut c: u64 = a;
    let mut i: usize = 0;
    assert(orig.take(0) =~= Seq::<u64>::empty());
    assert(w@.take(0) =~= Seq::<u64>::empty());
    assert(pow2(0) == 1) by {
        lemma2_to64();
    }
    assert(words_val(Seq::<u64>::empty()) == 0);
    assert(words_val(w@.take(0)) == 0);
    assert(words_val(orig.take(0)) == 0);
    assert(pow2(64 * 0nat) == 1);
    assert(words_val(orig.take(0)) * m as nat == 0);
    while i < 8
        invariant
            0 <= i <= 8,
            w@.len() == 8,
            orig.len() == 8,
            forall|j: int| i <= j < 8 ==> w@[j] == orig[j],
            words_val(w@.take(i as int)) + c as nat * pow2(64 * i as nat) == words_val(
                orig.take(i as int),
            ) * m as nat + a as nat,
        decreases 8 - i,
    {
        let wi: u64 = w[i];
        proof {
            assert((wi as nat) * (m as nat) <= 0xffff_ffff_ffff_fffe_0000_0000_0000_0001)
                by (nonlinear_arith)
                requires
                    wi <= 0xffff_ffff_ffff_ffff,
                    m <= 0xffff_ffff_ffff_ffff,
            ;
        }
        let t: u128 = (wi as u128) * (m as u128) + (c as u128);
        let lo: u64 = (t % 0x1_0000_0000_0000_0000u128) as u64;
        let hi: u64 = (t / 0x1_0000_0000_0000_0000u128) as u64;
        let ghost old_w = w@;
        let ghost old_c = c;
        w[i] = lo;
        c = hi;
        proof {
            let p = pow2(64 * i as nat);
            lemma_pow2_pos(64 * i as nat);
            lemma_pow2_adds(64 * i as nat, 64);
            lemma_pow2_64();
            assert(64 * (i + 1) as nat == 64 * i as nat + 64);
            assert(w@.take(i as int + 1) =~= w@.take(i as int).push(lo));
            assert(w@.take(i as int) =~= old_w.take(i as int));
            assert(orig.take(i as int + 1) =~= orig.take(i as int).push(orig[i as int]));
            lemma_val_push(w@.take(i as int), lo);
            lemma_val_push(orig.take(i as int), orig[i as int]);
            assert(w@.take(i as int).len() == i);
            assert(orig.take(i as int).len() == i);
            assert(t == lo as nat + word_base() * hi as nat);
            assert(t == orig[i as int] as nat * m as nat + old_c as nat);
            let vw = words_val(old_w.take(i as int));
            let vo = words_val(orig.take(i as int));
            assert(vw + lo as nat * p + hi as nat * (p * word_base()) == vw + old_c as nat * p
                + orig[i as int] as nat * m as nat * p) by (nonlinear_arith)
                requires
                    t == lo as nat + word_base() * hi as nat,
                    t == orig[i as int] as nat * m as nat + old_c as nat,
            ;
            assert(vo * m as nat + orig[i as int] as nat * p * m as nat == (vo + orig[i as int]
                as nat * p) * m as nat) by (nonlinear_arith);
            assert(words_val(w@.take(i as int + 1)) == vw + lo as nat * p);
            assert(words_val(orig.take(i as int + 1)) == vo + orig[i as int] as nat * p);
            assert(pow2(64 * (i + 1) as nat) == p * word_base());
            assert(vw + old_c as nat * p == vo * m as nat + a as nat);
            let p1 = pow2(64 * (i + 1) as nat);
            let o = orig[i as int] as nat;
            assert(vw + lo as nat * p + hi as nat * p1 == vo * m as nat + a as nat + o * p
                * m as nat) by (nonlinear_arith)
                requires
                    p1 == p * word_base(),
                    vw + old_c as nat * p == vo * m as nat + a as nat,
                    vw + lo as nat * p + hi as nat * (p * word_base()) == vw + old_c as nat * p + o
                        * m as nat * p,
            ;
        }
        i = i + 1;
    }
    assert(w@.take(8) =~= w@);
    assert(orig.take(8) =~= orig);
    c
}

/// Splits off the least significant word.
pub proof fn lemma_val_skip(s: Seq<u64>, i: int)
    requires
        0 <= i < s.len(),
    ensures
        words_val(s.skip(i)) == s[i] as nat + word_base() * words_val(s.skip(i + 1)),
{
    assert(s.skip(i).drop_first() =~= s.skip(i + 1));
}

/// Divides the value by `d`; returns the remainder.
pub fn div_small(w: &mut [u64; 8], d: u64) -> (r: u64)
    requires
        d > 0,
    ensures
        words_val(old(w)@) == words_val(final(w)@) * d as nat + r as nat,
        r < d,
{
    let ghost orig = w@;
    let mut rem: u64 = 0;
    let mut i: usize = 8;
    assert(w@.skip(8) =~= Seq::<u64>::empty());
    assert(orig.skip(8) =~= Seq::<u64>::empty());
    assert(words_val(Seq::<u64>::empty()) == 0);
    while i > 0
        invariant
            0 <= i <= 8,
            w@.len() == 8,
            orig.len() == 8,
            forall|j: int| 0 <= j < i ==> w@[j] == orig[j],
            rem < d,
            words_val(orig.skip(i as int)) == words_val(w@.skip(i as int)) * d as nat + rem as nat,
        decreases i,
    {
        let wi: u64 = w[i - 1];
        proof {
            assert(rem as nat * word_base() + (wi as nat) < d as nat * word_base()) by (
            nonlinear_arith)
                requires
                    rem < d,
                    wi < word_base(),
            ;
        }
        let t: u128 = (rem as u128) * 0x1_0000_0000_0000_0000u128 + (wi as u128);
        let q: u128 = t / (d as u128);
        proof {
            assert(q < word_base()) by (nonlinear_arith)
                requires
                    t < d as nat * word_base(),
                    q == t as nat / d as nat,
                    d > 0,
            ;
        }
        let ghost old_rem = rem;
        let ghost old_w = w@;
        w[i - 1] = q as u64;
        rem = (t % (d as u128)) as u64;
        proof {
            lemma_val_skip(orig, i - 1);
            lemma_val_skip(w@, i - 1);
            assert(w@.skip(i as int) =~= old_w.skip(i as int));
            let vo = words_val(orig.skip(i as int));
            let vw = words_val(w@.skip(i as int));
            lemma_fundamental_div_mod(t as int, d as int);
            assert(t == d as nat * q + rem as nat);
            assert(wi as nat + word_base() * vo == d as nat * (q + word_base() * vw) + rem as nat)
                by (nonlinear_arith)
                requires
                    vo == vw * d as nat + old_rem as nat,
                    t == old_rem as nat * word_base() + wi as nat,
                    t == d as nat * q + rem as nat,
            ;
        }
        i = i - 1;
    }
    assert(w@.skip(0) =~= w@);
    assert(orig.skip(0) =~= orig);
    rem
}

/// The value splits at any word boundary into a low and a high part.
pub proof fn lemma_val_split(s: Seq<u64>, q: int)
    requires
        0 <= q <= s.len(),
    ensures
        words_val(s) == words_val(s.take(q)) + pow2(64 * q as nat) * words_val(s.skip(q)),
    decreases q,
{
    if q == 0 {
        assert(s.take(0) =~= Seq::<u64>::empty());
        assert(s.skip(0) =~= s);
        assert(words_val(Seq::<u64>::empty()) == 0);
        assert(pow2(0) == 1) by {
            lemma2_to64();
        }
        assert(pow2(64 * q as nat) == 1);
    } else {
        let df = s.drop_first();
        lemma_val_split(df, q - 1);
        assert(df.skip(q - 1) =~= s.skip(q));
        assert(s.take(q).drop_first() =~= df.take(q - 1));
        lemma_pow2_64();
        lemma_pow2_adds(64, 64 * (q - 1) as nat);
        assert(64 + 64 * (q - 1) as nat == 64 * q as nat);
        let a = words_val(df.take(q - 1));
        let h = words_val(s.skip(q));
        let p = pow2(64 * (q - 1) as nat);
        assert(word_base() * (a + p * h) == word_base() * a + (word_base() * p) * h)
            by (nonlinear_arith);
        assert(s.take(q)[0] == s[0]);
        assert(words_val(s.take(q)) == s[0] as nat + word_base() * a);
        assert(words_val(s) == s[0] as nat + word_base() * words_val(df));
        assert(pow2(64 * q as nat) == word_base() * p);
        assert(words_val(df) == a + p * h);
    }
}

/// Reducing `a + m * h` modulo `m * p` reduces the high part `h` modulo `p`.
pub proof fn lemma_mod_split(a: nat, m: nat, h: nat, p: nat)
    requires
        a < m,
        p > 0,
    ensures
        (a + m * h) % (m * p) == a + m * (h % p),
{
    lemma_fundamental_div_mod(h as int, p as int);
    let hq = h / p;
    let hr = h % p;
    assert(hr < p) by {
        lemma_fundamental_div_mod(h as int, p as int);
    }
    assert(a + m * h == hq * (m * p) + (a + m * hr)) by (nonlinear_arith)
        requires
            h == p * hq + hr,
    ;
    assert(a + m * hr < m * p) by (nonlinear_arith)
        requires
            a < m,
            hr < p,
    ;
    lemma_fundamental_div_mod_converse(
        (a + m * h) as int,
        (m * p) as int,
        hq as int,
        (a + m * hr) as int,
    );
}

/// Reduces the value modulo `2^width`, clearing every bit at `width` and above.
pub fn mask_to(w: &mut [u64; 8], width: usize)
    requires
        width <= 512,
    ensures
        words_val(final(w)@) == words_val(old(w)@) % pow2(width as nat),
{
    let ghost orig = w@;
    let q: usize = width / 64;
    let r: usize = width % 64;
    proof {
        lemma_val_bound(orig);
        lemma_pow2_pos(width as nat);
    }
    if q == 8 {
        proof {
            assert(64 * orig.len() == 512);
            lemma_small_mod(words_val(orig), pow2(512));
        }
        return;
    }
    let wq: u64 = w[q];
    let low: u64 = if r > 0 {
        proof {
            vstd::bits::lemma_u64_pow2_no_overflow(r as nat);
            lemma_u64_shl_is_mul(1, r as u64);
        }
        wq % (1u64 << (r as u64))
    } else {
        0
    };
    w[q] = low;
    let mut j: usize = q + 1;
    while j < 8
        invariant
            q < j <= 8,
            w@.len() == 8,
            forall|k: int| 0 <= k < q ==> w@[k] == orig[k],
            w@[q as int] == low,
            forall|k: int| q < k < j ==> w@[k] == 0,
        decreases 8 - j,
    {
        w[j] = 0;
        j = j + 1;
    }
    proof {
        let s = w@;
        lemma_val_split(orig, q as int);
        lemma_val_split(s, q as int);
        assert(s.take(q as int) =~= orig.take(q as int));
        lemma_val_skip(orig, q as int);
        lemma_val_skip(s, q as int);
        lemma_val_zeros(s.skip(q as int + 1));
        let a = words_val(orig.take(q as int));
        let m = pow2(64 * q as nat);
        let p = pow2(r as nat);
        lemma_val_bound(orig.take(q as int));
        lemma_pow2_adds(64 * q as nat, r as nat);
        assert(64 * q as nat + r as nat == width as nat);
        lemma_pow2_pos(r as nat);
        let h = words_val(orig.skip(q as int));
        lemma_mod_split(a, m, h, p);
        // the high part modulo 2^r only keeps the low bits of word q
        let rest = words_val(orig.skip(q as int + 1));
        lemma_pow2_64();
        lemma_pow2_adds(r as nat, (64 - r) as nat);
        let c = pow2((64 - r) as nat);
        assert(word_base() * rest == p * (c * rest)) by (nonlinear_arith)
            requires
                word_base() == p * c,
        ;
        lemma_mod_multiples_vanish((c * rest) as int, wq as int, p as int);
        if r == 0 {
            assert(pow2(0) == 1) by {
                lemma2_to64();
            }
        }
        assert(words_val(s.skip(q as int)) == low as nat);
        assert(h % p == low as nat);
    }
}

/// Two word sequences that agree above word `j` compare as their words at `j` do.
proof fn lemma_val_cmp(a: Seq<u64>, b: Seq<u64>, j: int)
    requires
        a.len() == b.len(),
        0 <= j < a.len(),
        a.skip(j + 1) == b.skip(j + 1),
        a[j] < b[j],
    ensures
        words_val(a) < words_val(b),
{
    lemma_val_split(a, j);
    lemma_val_split(b, j);
    lemma_val_skip(a, j);
    lemma_val_skip(b, j);
    lemma_val_bound(a.take(j));
    let p = pow2(64 * j as nat);
    let ha = words_val(a.skip(j));
    let hb = words_val(b.skip(j));
    let la = words_val(a.take(j));
    let lb = words_val(b.take(j));
    assert(a.take(j).len() == j);
    assert(ha + 1 <= hb);
    assert(la + p * ha < p * hb + lb) by (nonlinear_arith)
        requires
            la < p,
            ha + 1 <= hb,
    ;
}

/// Compares two values: -1 when `a` is smaller, 0 when equal, 1 when larger.
pub fn cmp_words(a: &[u64; 8], b: &[u64; 8]) -> (r: i8)
    ensures
        r == -1 <==> words_val(a@) < words_val(b@),
        r == 0 <==> words_val(a@) == words_val(b@),
        r == 1 <==> words_val(a@) > words_val(b@),
{
    let mut i: usize = 8;
    while i > 0
        invariant
            0 <= i <= 8,
            a@.len() == 8,
            b@.len() == 8,
            a@.skip(i as int) == b@.skip(i as int),
        decreases i,
    {
        let x = a[i - 1];
        let y = b[i - 1];
        if x != y {
            proof {
                assert(a@.skip(i as int) == b@.skip(i as int));
                if x < y {
                    lemma_val_cmp(a@, b@, i - 1);
                } else {
                    lemma_val_cmp(b@, a@, i - 1);
                }
            }
            return if x < y {
                -1
            } else {
                1
            };
        }
        proof {
            assert(a@.skip(i - 1) =~= b@.skip(i - 1)) by {
                assert forall|k: int| 0 <= k < a@.skip(i - 1).len() implies #[trigger] a@.skip(i - 1)[k]
                    == b@.skip(i - 1)[k] by {
                    if k > 0 {
                        assert(a@.skip(i - 1)[k] == a@.skip(i as int)[k - 1]);
                        assert(b@.skip(i - 1)[k] == b@.skip(i as int)[k - 1]);
                    }
                }
            }
        }
        i = i - 1;
    }
    assert(a@ =~= a@.skip(0));
    assert(b@ =~= b@.skip(0));
    0
}

} // verus!
