//! Fixed-width multi-word values: storage, resizing, printing and parsing.
use crate::numeral::{
    digit_count, is_zero, lemma_digit_count_bound, lemma_digit_count_pos, lemma_numeral_char,
    lemma_numeral_digits, lemma_numeral_val, numeral, pad_digits, pad_len, push_char, push_digits,
};
use crate::parse::{digits_of, has_prefix, parse_spec, parse_text, sign_len, zero_letter, Diagnostic};
use crate::words::{cmp_words, lemma_val_zeros, mask_to, word_base, words_val};
use vstd::arithmetic::div_mod::{lemma_mod_multiples_vanish, lemma_small_mod};
use vstd::arithmetic::power2::{lemma_pow2_pos, lemma_pow2_unfold, pow2};
use vstd::prelude::*;
use vstd::string::StrSliceExecFns;

verus! {

/// Largest supported width in bits.
pub const MAX_BITS: usize = 512;

/// A value of `bits_size` bits held as a magnitude in eight little-endian words, with a
/// separate sign flag that only signed decimal printing reads.
#[derive(Clone, Copy)]
pub struct BitValue {
    bits_size: usize,
    data: [u64; 8],
    neg: bool,
}

/// Bit 0 of the value is bit 0 of the first word; changing that word changes the value by
/// the same amount.
pub proof fn lemma_first_word(w: Seq<u64>, x: u64)
    requires
        w.len() > 0,
    ensures
        words_val(w) % 2 == w[0] as nat % 2,
        words_val(w.update(0, x)) + w[0] as nat == words_val(w) + x as nat,
{
    let rest = words_val(w.drop_first());
    assert(w.update(0, x).drop_first() =~= w.drop_first());
    assert(word_base() * rest == 2 * (0x8000_0000_0000_0000 * rest)) by (nonlinear_arith);
    lemma_mod_multiples_vanish((0x8000_0000_0000_0000 * rest) as int, w[0] as int, 2);
}

impl BitValue {
    pub const INNER_LEN: usize = 8;

    pub const BYTE: usize = 64;

    pub const BITS: usize = MAX_BITS;

    /// Width in bits.
    pub closed spec fn width(&self) -> nat {
        self.bits_size as nat
    }

    /// The storage words, least significant first.
    pub closed spec fn words(&self) -> Seq<u64> {
        self.data@
    }

    /// The unsigned magnitude held.
    pub open spec fn magnitude(&self) -> nat {
        words_val(self.words())
    }

    /// The sign flag.
    pub closed spec fn is_neg(&self) -> bool {
        self.neg
    }

    /// The width is in range and no bit at or above it is set.
    pub open spec fn wf(&self) -> bool {
        &&& 1 <= self.width() <= 512
        &&& self.words().len() == 8
        &&& self.magnitude() < pow2(self.width())
    }

    /// A zero value of `size` bits.
    pub fn new(size: usize) -> (r: Self)
        requires
            1 <= size <= 512,
        ensures
            r.wf(),
            r.width() == size,
            r.magnitude() == 0,
            !r.is_neg(),
    {
        let r = BitValue { bits_size: size, data: [0u64; 8], neg: false };
        proof {
            lemma_val_zeros(r.data@);
            lemma_pow2_pos(size as nat);
        }
        r
    }

    /// Width in bits.
    pub fn bit_width(&self) -> (r: usize)
        ensures
            r == self.width(),
    {
        self.bits_size
    }

    /// Whether the sign flag is set.
    pub fn negative(&self) -> (r: bool)
        ensures
            r == self.is_neg(),
    {
        self.neg
    }

    /// Clears the magnitude; width and sign stay.
    pub fn set_zero(&mut self)
        requires
            old(self).wf(),
        ensures
            final(self).wf(),
            final(self).width() == old(self).width(),
            final(self).is_neg() == old(self).is_neg(),
            final(self).magnitude() == 0,
    {
        self.data = [0u64; 8];
        proof {
            lemma_val_zeros(self.data@);
            lemma_pow2_pos(self.bits_size as nat);
        }
    }

    /// Sets bit 0 to `v`; every other bit stays.
    pub fn set_bool(&mut self, v: bool)
        requires
            old(self).wf(),
        ensures
            final(self).wf(),
            final(self).width() == old(self).width(),
            final(self).is_neg() == old(self).is_neg(),
            final(self).magnitude() == old(self).magnitude() - old(self).magnitude() % 2 + (if v {
                1nat
            } else {
                0nat
            }),
    {
        let w0: u64 = self.data[0];
        let nw: u64 = (w0 - w0 % 2) + (if v {
            1u64
        } else {
            0u64
        });
        proof {
            lemma_first_word(self.data@, nw);
            lemma_pow2_unfold(self.bits_size as nat);
        }
        self.data[0] = nw;
    }

    /// The number the value stands for: the negated magnitude when read signed with the
    /// sign flag set, else the magnitude.
    pub open spec fn num(&self, signed: bool) -> int {
        if signed && self.is_neg() {
            -(self.magnitude() as int)
        } else {
            self.magnitude() as int
        }
    }

    /// Whether this value's number is at most `other`'s.
    pub fn num_le(&self, other: &BitValue, signed: bool) -> (r: bool)
        ensures
            r == (self.num(signed) <= other.num(signed)),
    {
        let c = cmp_words(&self.data, &other.data);
        let sa = signed && self.neg;
        let sb = signed && other.neg;
        if sa && !sb {
            true
        } else if !sa && sb {
            c == 0 && is_zero(&self.data)
        } else if sa && sb {
            c >= 0
        } else {
            c <= 0
        }
    }

    /// The value of bit 0.
    pub fn bool(&self) -> (r: bool)
        requires
            self.wf(),
        ensures
            r == (self.magnitude() % 2 == 1),
    {
        proof {
            lemma_first_word(self.data@, 0);
        }
        self.data[0] % 2 == 1
    }

    /// Flips bit 0; every other bit stays.
    pub fn neg_bool(&mut self)
        requires
            old(self).wf(),
        ensures
            final(self).wf(),
            final(self).width() == old(self).width(),
            final(self).is_neg() == old(self).is_neg(),
            final(self).magnitude() == old(self).magnitude() - old(self).magnitude() % 2 + (1
                - old(self).magnitude() % 2),
    {
        let w0: u64 = self.data[0];
        let nw: u64 = if w0 % 2 == 1 {
            w0 - 1
        } else {
            w0 + 1
        };
        proof {
            lemma_first_word(self.data@, nw);
            lemma_pow2_unfold(self.bits_size as nat);
        }
        self.data[0] = nw;
    }

    /// The storage words, least significant first.
    pub fn data(&self) -> (r: &[u64; 8])
        ensures
            r@ == self.words(),
    {
        &self.data
    }

    /// Changes the width to `size` bits. Growing keeps the value; shrinking drops every bit
    /// at `size` and above. A width of zero or above 512 is refused and nothing changes.
    pub fn set_size(&mut self, size: usize) -> (r: Result<(), ()>)
        requires
            old(self).wf(),
        ensures
            final(self).wf(),
            final(self).is_neg() == old(self).is_neg(),
            (size == 0 || size > 512) ==> r is Err && *final(self) == *old(self),
            (1 <= size <= 512) ==> r is Ok && final(self).width() == size
                && final(self).magnitude() == resized(old(self).magnitude(), size as nat),
    {
        if size == 0 || size > 512 {
            return Err(());
        }
        mask_to(&mut self.data, size);
        self.bits_size = size;
        proof {
            lemma_pow2_pos(size as nat);
        }
        Ok(())
    }

    /// Reads `s` into the value (see `parse_spec`): on success the magnitude and sign flag
    /// are replaced; on failure nothing changes and every finding is returned.
    pub fn parse_chars(&mut self, s: &Vec<char>) -> (r: Result<(), Vec<Diagnostic>>)
        requires
            old(self).wf(),
        ensures
            final(self).wf(),
            final(self).width() == old(self).width(),
            match parse_spec(s@, old(self).width()) {
                Ok((neg, m)) => r is Ok && final(self).magnitude() == m && final(self).is_neg()
                    == neg,
                Err(d) => r matches Err(e) && e@ == d && *final(self) == *old(self),
            },
    {
        match parse_text(s, self.bits_size) {
            Ok((neg, w)) => {
                self.data = w;
                self.neg = neg;
                Ok(())
            },
            Err(e) => Err(e),
        }
    }

    /// Reads the text `s` into the value, as `parse_chars` does.
    pub fn parse_from(&mut self, s: &str) -> (r: Result<(), Vec<Diagnostic>>)
        requires
            old(self).wf(),
        ensures
            final(self).wf(),
            final(self).width() == old(self).width(),
            match parse_spec(s@, old(self).width()) {
                Ok((neg, m)) => r is Ok && final(self).magnitude() == m && final(self).is_neg()
                    == neg,
                Err(d) => r matches Err(e) && e@ == d && *final(self) == *old(self),
            },
    {
        let chars = chars_of(s);
        self.parse_chars(&chars)
    }

    fn print_base(&self, base: IntBase, signed: bool) -> (r: String)
        requires
            self.wf(),
        ensures
            r@ == sign_text(signed && self.is_neg() && base == IntBase::B10) + numeral(
                self.magnitude(),
                base.radix(),
                pad_len(base.radix(), self.width()),
            ),
    {
        let mut s = String::new();
        let radix = base.get_radix();
        if signed && self.neg && radix == 10 {
            push_char(&mut s, '-');
        }
        let n = pad_digits(self.bits_size, radix);
        push_digits(self.data, radix, n, &mut s);
        s
    }

    /// The magnitude in binary, zero-padded to the width.
    pub fn to_bin(&self) -> (r: String)
        requires
            self.wf(),
        ensures
            r@ == numeral(self.magnitude(), 2, pad_len(2, self.width())),
    {
        let r = self.print_base(IntBase::B2, false);
        assert(r@ =~= numeral(self.magnitude(), 2, pad_len(2, self.width())));
        r
    }

    /// The magnitude in octal, zero-padded to the digits that the width takes.
    pub fn to_oct(&self) -> (r: String)
        requires
            self.wf(),
        ensures
            r@ == numeral(self.magnitude(), 8, pad_len(8, self.width())),
    {
        let r = self.print_base(IntBase::B8, false);
        assert(r@ =~= numeral(self.magnitude(), 8, pad_len(8, self.width())));
        r
    }

    /// The value in decimal, zero-padded to the digits that the width takes; with `signed`,
    /// a set sign flag puts a `-` in front.
    pub fn to_dec(&self, signed: bool) -> (r: String)
        requires
            self.wf(),
        ensures
            r@ == dec_text(self.magnitude(), signed && self.is_neg(), self.width()),
    {
        self.print_base(IntBase::B10, signed)
    }

    /// The magnitude in lower-case hexadecimal, zero-padded to the digits that the width
    /// takes.
    pub fn to_hex(&self) -> (r: String)
        requires
            self.wf(),
        ensures
            r@ == numeral(self.magnitude(), 16, pad_len(16, self.width())),
    {
        let r = self.print_base(IntBase::B16, false);
        assert(r@ =~= numeral(self.magnitude(), 16, pad_len(16, self.width())));
        r
    }
}

/// The magnitude left when a value of magnitude `m` is given a width of `size` bits.
pub open spec fn resized(m: nat, size: nat) -> nat {
    m % pow2(size)
}

/// Decimal text of magnitude `m` at `width` bits, with a minus sign in front when `minus`.
pub open spec fn dec_text(m: nat, minus: bool, width: nat) -> Seq<char> {
    sign_text(minus) + numeral(m, 10, pad_len(10, width))
}

/// The prefix that names base `b` when reading (none for ten).
pub open spec fn base_prefix(b: nat) -> Seq<char> {
    if b == 2 {
        seq!['0', 'b']
    } else if b == 8 {
        seq!['0', 'o']
    } else if b == 16 {
        seq!['0', 'x']
    } else {
        Seq::empty()
    }
}

/// Printing any value of `width` bits in base 2, 8, 10 or 16 without a sign and reading the
/// digits back behind that base's prefix gives the same magnitude, unsigned.
pub proof fn law_print_read_round_trip(width: nat, v: nat, b: nat)
    requires
        1 <= width <= 512,
        v < pow2(width),
        b == 2 || b == 8 || b == 10 || b == 16,
    ensures
        parse_spec(base_prefix(b) + numeral(v, b, pad_len(b, width)), width) == Ok::<
            (bool, nat),
            Seq<Diagnostic>,
        >((false, v)),
{
    let n = pad_len(b, width);
    let d = numeral(v, b, n);
    let s = base_prefix(b) + d;
    lemma_numeral_digits(v, b, n);
    lemma_numeral_val(v, b, n);
    lemma_pow2_pos(width);
    let top = (pow2(width) - 1) as nat;
    lemma_digit_count_bound(top, b);
    vstd::arithmetic::power::lemma_pow_positive(b as int, n);
    lemma_small_mod(v, vstd::arithmetic::power::pow(b as int, n) as nat);
    assert(n >= 1);
    assert(d.len() >= 1);
    assert(d[0] == numeral(v, b, n)[0]);
    lemma_digit_count_pos(top, b);
    if b == 10 {
        assert(s =~= d);
        lemma_numeral_char(v, b, n, 0);
        if d.len() >= 2 {
            lemma_numeral_char(v, b, n, 1);
        }
        assert(sign_len(s) == 0);
        assert(!zero_letter(s));
        assert(digits_of(s) =~= d);
    } else {
        assert(s[0] == '0');
        assert(sign_len(s) == 0);
        assert(zero_letter(s));
        assert(has_prefix(s));
        assert(digits_of(s) =~= d);
    }
}

/// Reading a minus sign and the decimal digits of any magnitude that fits `width` bits
/// gives a negative value of that magnitude, which signed decimal printing shows as a minus
/// sign followed by the magnitude's digits, zero-padded to the digits the width takes.
pub proof fn law_negative_decimal(width: nat, v: nat)
    requires
        1 <= width <= 512,
        0 < v < pow2(width),
    ensures
        parse_spec(seq!['-'] + numeral(v, 10, digit_count(v, 10)), width) == Ok::<
            (bool, nat),
            Seq<Diagnostic>,
        >((true, v)),
        dec_text(v, true, width)[0] == '-',
        dec_text(v, true, width).drop_first() == numeral(v, 10, pad_len(10, width)),
{
    let n = digit_count(v, 10);
    let d = numeral(v, 10, n);
    let s = seq!['-'] + d;
    lemma_numeral_digits(v, 10, n);
    lemma_numeral_val(v, 10, n);
    lemma_digit_count_bound(v, 10);
    vstd::arithmetic::power::lemma_pow_positive(10, n);
    lemma_small_mod(v, vstd::arithmetic::power::pow(10, n) as nat);
    assert(n >= 1);
    lemma_numeral_char(v, 10, n, 0);
    if n >= 2 {
        lemma_numeral_char(v, 10, n, 1);
    }
    assert(sign_len(s) == 1);
    assert(!zero_letter(s));
    assert(digits_of(s) =~= d);
    assert(dec_text(v, true, width).drop_first() =~= numeral(v, 10, pad_len(10, width)));
}

/// Giving a value the width it has changes nothing. Shrinking it and growing it back keeps
/// only the bits below the smaller width: whatever was dropped stays dropped.
pub proof fn law_resize(m: nat, width: nat, narrow: nat)
    requires
        1 <= narrow <= width <= 512,
        m < pow2(width),
    ensures
        resized(m, width) == m,
        resized(resized(m, narrow), width) == resized(m, narrow),
        resized(resized(m, narrow), width) < pow2(narrow),
        m >= pow2(narrow) ==> resized(resized(m, narrow), width) != m,
{
    lemma_pow2_pos(narrow);
    lemma_small_mod(m, pow2(width));
    vstd::arithmetic::div_mod::lemma_mod_bound(m as int, pow2(narrow) as int);
    if narrow < width {
        vstd::arithmetic::power2::lemma_pow2_strictly_increases(narrow, width);
    }
    lemma_small_mod(m % pow2(narrow), pow2(width));
}

/// A leading minus sign, or nothing.
pub open spec fn sign_text(minus: bool) -> Seq<char> {
    if minus {
        seq!['-']
    } else {
        Seq::empty()
    }
}

/// The characters of `s`, one by one.
pub fn chars_of(s: &str) -> (r: Vec<char>)
    ensures
        r@ == s@,
{
    let n = s.unicode_len();
    let mut v: Vec<char> = Vec::new();
    let mut i: usize = 0;
    while i < n
        invariant
            n == s@.len(),
            i <= n,
            v@ == s@.take(i as int),
        decreases n - i,
    {
        v.push(s.get_char(i));
        proof {
            assert(v@ =~= s@.take(i as int + 1));
        }
        i = i + 1;
    }
    assert(v@ =~= s@);
    v
}

/// The four printing bases.
#[derive(PartialEq, Eq, Structural, Clone, Copy)]
enum IntBase {
    B2,
    B8,
    B10,
    B16,
}

impl IntBase {
    spec fn radix(&self) -> nat {
        match self {
            IntBase::B2 => 2,
            IntBase::B8 => 8,
            IntBase::B10 => 10,
            IntBase::B16 => 16,
        }
    }

    fn get_radix(&self) -> (r: u64)
        ensures
            r as nat == self.radix(),
    {
        match self {
            IntBase::B2 => 2,
            IntBase::B8 => 8,
            IntBase::B10 => 10,
            IntBase::B16 => 16,
        }
    }
}

} // verus!
