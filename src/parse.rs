//! The text grammar of values: an optional sign, an optional base prefix and digits, read in
//! chunks that each fit one word.
use crate::numeral::{all_digits, digit_of, seq_val};
use crate::words::{lemma_val_bound, lemma_val_zeros, mask_to, mul_add, word_base, words_val};
use vstd::arithmetic::div_mod::{lemma_fundamental_div_mod, lemma_fundamental_div_mod_converse};
use vstd::arithmetic::power2::{lemma_pow2_pos, lemma_pow2_strictly_increases, pow2};
use vstd::prelude::*;

verus! {

/// Why a piece of text is not a value.
#[derive(PartialEq, Eq, Structural, Clone, Copy, Debug)]
pub enum Cause {
    /// The text is empty.
    Empty,
    /// A letter other than `b`, `o` or `x` follows a leading `0`.
    BadPrefix,
    /// A chunk holds a character that is no digit of the base.
    InvalidDigit,
    /// The value read up to the end of this chunk needs more bits than the width.
    TooLong,
}

/// One finding about the text: the byte range `start..end` it points at and why.
#[derive(PartialEq, Eq, Structural, Clone, Copy, Debug)]
pub struct Diagnostic {
    pub start: usize,
    pub end: usize,
    pub cause: Cause,
}

/// Length of the sign: one for a leading `-` or `+`.
pub open spec fn sign_len(s: Seq<char>) -> nat {
    if s.len() > 0 && (s[0] == '-' || s[0] == '+') {
        1
    } else {
        0
    }
}

/// The base that a prefix letter selects, or zero.
pub open spec fn prefix_radix(c: char) -> nat {
    if c == 'b' || c == 'B' {
        2
    } else if c == 'o' || c == 'O' {
        8
    } else if c == 'x' || c == 'X' {
        16
    } else {
        0
    }
}

pub open spec fn is_letter(c: char) -> bool {
    ('a' <= c && c <= 'z') || ('A' <= c && c <= 'Z')
}

/// A `0` and a letter follow the sign.
pub open spec fn zero_letter(s: Seq<char>) -> bool {
    let i = sign_len(s) as int;
    s.len() >= i + 2 && s[i] == '0' && is_letter(s[i + 1])
}

/// The text names its base by a prefix.
pub open spec fn has_prefix(s: Seq<char>) -> bool {
    zero_letter(s) && prefix_radix(s[sign_len(s) + 1int]) != 0
}

/// The text starts with a `0` and a letter that names no base.
pub open spec fn bad_prefix(s: Seq<char>) -> bool {
    zero_letter(s) && prefix_radix(s[sign_len(s) + 1int]) == 0
}

/// The base of the digits: the prefix's, else ten.
pub open spec fn radix(s: Seq<char>) -> nat {
    if has_prefix(s) {
        prefix_radix(s[sign_len(s) + 1int])
    } else {
        10
    }
}

/// Where the digits start.
pub open spec fn digits_start(s: Seq<char>) -> nat {
    sign_len(s) + if has_prefix(s) {
        2nat
    } else {
        0nat
    }
}

/// The digits.
pub open spec fn digits_of(s: Seq<char>) -> Seq<char> {
    s.subrange(digits_start(s) as int, s.len() as int)
}

/// How many digits of base `b` one word takes.
pub open spec fn chunk_len(b: nat) -> nat {
    if b == 2 {
        64
    } else if b == 8 {
        21
    } else if b == 10 {
        19
    } else {
        16
    }
}

/// Length of the leftmost chunk of `n` digits: chunks are cut from the right.
pub open spec fn first_len(n: nat, k: nat) -> nat {
    if n == 0 || k == 0 {
        0
    } else {
        ((n - 1) as nat % k) + 1
    }
}

/// Number of chunks of `n` digits.
pub open spec fn chunk_count(n: nat, k: nat) -> nat {
    if n == 0 || k == 0 {
        0
    } else {
        ((n - 1) as nat / k) + 1
    }
}

/// End of chunk `t`, counting chunks from the left.
pub open spec fn chunk_end(n: nat, k: nat, t: nat) -> nat {
    first_len(n, k) + t * k
}

/// Start of chunk `t`, counting chunks from the left.
pub open spec fn chunk_start(n: nat, k: nat, t: nat) -> nat {
    if t == 0 {
        0
    } else {
        chunk_end(n, k, (t - 1) as nat)
    }
}

/// How many bytes UTF-8 takes for `c`.
pub open spec fn utf8_len(c: char) -> nat {
    if (c as int) < 0x80 {
        1
    } else if (c as int) < 0x800 {
        2
    } else if (c as int) < 0x10000 {
        3
    } else {
        4
    }
}

/// The byte offset of character `i` of `s` in its UTF-8 text (held at `usize::MAX` should a
/// text ever be that long).
pub open spec fn byte_pos(s: Seq<char>, i: nat) -> nat
    decreases i,
{
    if i == 0 || i > s.len() {
        0
    } else {
        let p = byte_pos(s, (i - 1) as nat);
        if p + 4 > usize::MAX {
            usize::MAX as nat
        } else {
            p + utf8_len(s[i - 1])
        }
    }
}

/// The finding for chunk `t` of the digits of `s`: the byte range of the chunk.
pub open spec fn chunk_diag(s: Seq<char>, t: nat, cause: Cause) -> Diagnostic {
    let n = digits_of(s).len();
    let k = chunk_len(radix(s));
    Diagnostic {
        start: byte_pos(s, digits_start(s) + chunk_start(n, k, t)) as usize,
        end: byte_pos(s, digits_start(s) + chunk_end(n, k, t)) as usize,
        cause,
    }
}

fn char_bytes(c: char) -> (r: usize)
    ensures
        r == utf8_len(c),
{
    let x = c as u32;
    if x < 0x80 {
        1
    } else if x < 0x800 {
        2
    } else if x < 0x10000 {
        3
    } else {
        4
    }
}

/// The byte offset of every character position of `s`, its end included.
fn byte_offsets(s: &Vec<char>) -> (r: Vec<usize>)
    ensures
        r@.len() == s@.len() + 1,
        forall|k: int| 0 <= k <= s@.len() ==> #[trigger] r@[k] == byte_pos(s@, k as nat),
{
    let mut r: Vec<usize> = Vec::new();
    r.push(0);
    let mut off: usize = 0;
    let mut k: usize = 0;
    while k < s.len()
        invariant
            k <= s@.len(),
            r@.len() == k + 1,
            off == byte_pos(s@, k as nat),
            forall|j: int| 0 <= j <= k ==> #[trigger] r@[j] == byte_pos(s@, j as nat),
        decreases s@.len() - k,
    {
        let b = char_bytes(s[k]);
        off = if off > usize::MAX - 4 {
            usize::MAX
        } else {
            off + b
        };
        r.push(off);
        k = k + 1;
    }
    r
}

/// Chunk `t` holds only digits of the base.
pub open spec fn chunk_ok(s: Seq<char>, t: nat) -> bool {
    let d = digits_of(s);
    let k = chunk_len(radix(s));
    all_digits(
        d.subrange(chunk_start(d.len(), k, t) as int, chunk_end(d.len(), k, t) as int),
        radix(s),
    )
}

/// One finding per chunk among the first `t` that holds a character that is no digit.
pub open spec fn digit_diags(s: Seq<char>, t: nat) -> Seq<Diagnostic>
    decreases t,
{
    if t == 0 {
        Seq::empty()
    } else {
        let u = (t - 1) as nat;
        digit_diags(s, u) + if chunk_ok(s, u) {
            Seq::<Diagnostic>::empty()
        } else {
            seq![chunk_diag(s, u, Cause::InvalidDigit)]
        }
    }
}

/// The value of the digits up to the end of chunk `t` needs more than `width` bits.
pub open spec fn chunk_long(s: Seq<char>, width: nat, t: nat) -> bool {
    let d = digits_of(s);
    let k = chunk_len(radix(s));
    seq_val(d.take(chunk_end(d.len(), k, t) as int), radix(s)) >= pow2(width)
}

/// One finding per chunk among the first `t` at whose end the value read so far needs more
/// than `width` bits.
pub open spec fn long_diags(s: Seq<char>, width: nat, t: nat) -> Seq<Diagnostic>
    decreases t,
{
    if t == 0 {
        Seq::empty()
    } else {
        let u = (t - 1) as nat;
        long_diags(s, width, u) + if chunk_long(s, width, u) {
            seq![chunk_diag(s, u, Cause::TooLong)]
        } else {
            Seq::<Diagnostic>::empty()
        }
    }
}

/// What reading `s` into a value of `width` bits gives: the sign flag and the magnitude, or
/// every finding against it.
pub open spec fn parse_spec(s: Seq<char>, width: nat) -> Result<(bool, nat), Seq<Diagnostic>> {
    let d = digits_of(s);
    let b = radix(s);
    let nch = chunk_count(d.len(), chunk_len(b));
    if s.len() == 0 {
        Err(seq![Diagnostic { start: 0, end: 0, cause: Cause::Empty }])
    } else if bad_prefix(s) {
        Err(
            seq![
                Diagnostic {
                    start: (sign_len(s) + 1) as usize,
                    end: (sign_len(s) + 2) as usize,
                    cause: Cause::BadPrefix,
                },
            ],
        )
    } else if !all_digits(d, b) {
        Err(digit_diags(s, nch))
    } else if seq_val(d, b) >= pow2(width) {
        Err(long_diags(s, width, nch))
    } else {
        Ok((s[0] == '-', seq_val(d, b)))
    }
}

/// Equal-length word sequences with equal values are equal.
pub proof fn lemma_val_injective(a: Seq<u64>, b: Seq<u64>)
    requires
        a.len() == b.len(),
        words_val(a) == words_val(b),
    ensures
        a == b,
    decreases a.len(),
{
    if a.len() > 0 {
        lemma_val_bound(a.drop_first());
        lemma_fundamental_div_mod_converse(
            words_val(a) as int,
            word_base() as int,
            words_val(a.drop_first()) as int,
            a[0] as int,
        );
        lemma_fundamental_div_mod_converse(
            words_val(b) as int,
            word_base() as int,
            words_val(b.drop_first()) as int,
            b[0] as int,
        );
        lemma_val_injective(a.drop_first(), b.drop_first());
        assert(a =~= b) by {
            assert forall|i: int| 0 <= i < a.len() implies a[i] == b[i] by {
                if i > 0 {
                    assert(a[i] == a.drop_first()[i - 1]);
                    assert(b[i] == b.drop_first()[i - 1]);
                }
            }
        }
    }
}

/// Whether the value is below `2^width`.
pub fn fits(w: &[u64; 8], width: usize) -> (r: bool)
    requires
        width <= 512,
    ensures
        r == (words_val(w@) < pow2(width as nat)),
{
    let mut m: [u64; 8] = *w;
    mask_to(&mut m, width);
    proof {
        lemma_pow2_pos(width as nat);
    }
    let mut i: usize = 0;
    while i < 8
        invariant
            0 <= i <= 8,
            m@.len() == 8,
            w@.len() == 8,
            forall|j: int| 0 <= j < i ==> m@[j] == w@[j],
            words_val(m@) == words_val(w@) % pow2(width as nat),
            pow2(width as nat) > 0,
        decreases 8 - i,
    {
        if m[i] != w[i] {
            proof {
                if words_val(w@) < pow2(width as nat) {
                    vstd::arithmetic::div_mod::lemma_small_mod(words_val(w@), pow2(width as nat));
                    lemma_val_injective(m@, w@);
                }
            }
            return false;
        }
        i = i + 1;
    }
    proof {
        assert(m@ =~= w@);
        vstd::arithmetic::div_mod::lemma_mod_bound(words_val(w@) as int, pow2(width as nat) as int);
    }
    true
}

/// The value of a digit character, or 16.
pub fn digit_value(c: char) -> (d: u64)
    ensures
        d as nat == digit_of(c),
{
    if '0' <= c && c <= '9' {
        (c as u64) - ('0' as u64)
    } else if 'a' <= c && c <= 'f' {
        (c as u64) - ('a' as u64) + 10
    } else if 'A' <= c && c <= 'F' {
        (c as u64) - ('A' as u64) + 10
    } else {
        16
    }
}

fn letter(c: char) -> (r: bool)
    ensures
        r == is_letter(c),
{
    ('a' <= c && c <= 'z') || ('A' <= c && c <= 'Z')
}

fn prefix_base(c: char) -> (r: u64)
    ensures
        r as nat == prefix_radix(c),
{
    if c == 'b' || c == 'B' {
        2
    } else if c == 'o' || c == 'O' {
        8
    } else if c == 'x' || c == 'X' {
        16
    } else {
        0
    }
}

/// Whether `s[from..to]` holds only digits of base `b`.
fn chunk_digits(s: &Vec<char>, from: usize, to: usize, b: u64) -> (r: bool)
    requires
        from <= to <= s@.len(),
    ensures
        r == all_digits(s@.subrange(from as int, to as int), b as nat),
{
    let mut i: usize = from;
    while i < to
        invariant
            from <= i <= to <= s@.len(),
            all_digits(s@.subrange(from as int, i as int), b as nat),
        decreases to - i,
    {
        let d = digit_value(s[i]);
        if d >= b {
            proof {
                assert(s@.subrange(from as int, to as int)[i - from] == s@[i as int]);
            }
            return false;
        }
        proof {
            let t = s@.subrange(from as int, i as int + 1);
            assert forall|j: int| 0 <= j < t.len() implies digit_of(#[trigger] t[j]) < b by {
                if j < i - from {
                    assert(t[j] == s@.subrange(from as int, i as int)[j]);
                }
            }
        }
        i = i + 1;
    }
    true
}

/// Chunk boundaries: the chunks tile the digits, each within bounds.
proof fn lemma_chunks(n: nat, k: nat, t: nat)
    requires
        k > 0,
        t < chunk_count(n, k),
    ensures
        chunk_start(n, k, t) < chunk_end(n, k, t) <= n,
        t > 0 ==> chunk_end(n, k, t) == chunk_start(n, k, t) + k,
        t + 1 == chunk_count(n, k) ==> chunk_end(n, k, t) == n,
{
    lemma_fundamental_div_mod((n - 1) as int, k as int);
    let q = (n - 1) as nat / k;
    let r = (n - 1) as nat % k;
    assert(n - 1 == q * k + r) by (nonlinear_arith)
        requires
            n - 1 == k * q + r,
    ;
    assert(chunk_count(n, k) == q + 1);
    assert(first_len(n, k) == r + 1);
    assert(t * k <= q * k) by (nonlinear_arith)
        requires
            t <= q,
    ;
    if t > 0 {
        assert(t * k == (t - 1) as nat * k + k) by (nonlinear_arith)
            requires
                t > 0,
        ;
    }
}

/// Reading one more digit.
proof fn lemma_seq_val_step(d: Seq<char>, j: int, b: nat)
    requires
        0 <= j < d.len(),
    ensures
        seq_val(d.take(j + 1), b) == seq_val(d.take(j), b) * b + digit_of(d[j]),
{
    assert(d.take(j + 1).drop_last() =~= d.take(j));
}

/// Where the digits start and their base, or `None` for a letter after `0` that names no
/// base.
fn head(s: &Vec<char>) -> (r: Option<(usize, u64)>)
    requires
        s@.len() > 0,
    ensures
        r is None <==> bad_prefix(s@),
        r matches Some((start, b)) ==> start == digits_start(s@) && b == radix(s@),
{
    let n = s.len();
    let i: usize = if s[0] == '-' || s[0] == '+' {
        1
    } else {
        0
    };
    if n >= i + 2 && s[i] == '0' && letter(s[i + 1]) {
        let pb = prefix_base(s[i + 1]);
        if pb == 0 {
            return None;
        }
        return Some((i + 2, pb));
    }
    Some((i, 10))
}

/// One finding per chunk that holds a character that is no digit of the base.
fn digit_check(s: &Vec<char>, offs: &Vec<usize>, start: usize, b: u64, k: usize) -> (bad: Vec<Diagnostic>)
    requires
        offs@.len() == s@.len() + 1,
        forall|j: int| 0 <= j <= s@.len() ==> #[trigger] offs@[j] == byte_pos(s@, j as nat),
        s@.len() > 0,
        !bad_prefix(s@),
        start == digits_start(s@),
        b == radix(s@),
        k == chunk_len(b as nat),
    ensures
        bad@ == digit_diags(s@, chunk_count(digits_of(s@).len(), k as nat)),
        (bad@.len() == 0) == all_digits(digits_of(s@), b as nat),
{
    let ghost d = digits_of(s@);
    let n = s.len();
    let len: usize = n - start;
    let first: usize = if len == 0 {
        0
    } else {
        (len - 1) % k + 1
    };
    let nch: usize = if len == 0 {
        0
    } else {
        (len - 1) / k + 1
    };
    let mut bad: Vec<Diagnostic> = Vec::new();
    let mut t: usize = 0;
    let mut pos: usize = 0;
    proof {
        assert(d.take(0) =~= Seq::<char>::empty());
    }
    while t < nch
        invariant
            d == digits_of(s@),
            d.len() == len,
            len == n - start,
            n == s@.len(),
            start == digits_start(s@),
            b == radix(s@),
            k == chunk_len(b as nat),
            k > 0,
            offs@.len() == s@.len() + 1,
            forall|j: int| 0 <= j <= s@.len() ==> #[trigger] offs@[j] == byte_pos(s@, j as nat),
            nch == chunk_count(len as nat, k as nat),
            first == first_len(len as nat, k as nat),
            t <= nch,
            pos == chunk_start(len as nat, k as nat, t as nat),
            pos <= len,
            t == nch ==> pos == len,
            bad@ == digit_diags(s@, t as nat),
            (bad@.len() == 0) == all_digits(d.take(pos as int), b as nat),
        decreases nch - t,
    {
        proof {
            lemma_chunks(len as nat, k as nat, t as nat);
        }
        let end: usize = if t == 0 {
            first
        } else {
            pos + k
        };
        assert(end == chunk_end(len as nat, k as nat, t as nat));
        let ok = chunk_digits(s, start + pos, start + end, b);
        proof {
            assert(s@.subrange((start + pos) as int, (start + end) as int) =~= d.subrange(
                pos as int,
                end as int,
            ));
            assert(ok == chunk_ok(s@, t as nat));
            let before = d.take(pos as int);
            let after = d.take(end as int);
            let mid = d.subrange(pos as int, end as int);
            if all_digits(after, b as nat) {
                assert forall|j: int| 0 <= j < before.len() implies digit_of(#[trigger] before[j])
                    < b by {
                    assert(before[j] == after[j]);
                }
                assert forall|j: int| 0 <= j < mid.len() implies digit_of(#[trigger] mid[j]) < b by {
                    assert(mid[j] == after[j + pos]);
                }
            }
            if all_digits(before, b as nat) && ok {
                assert forall|j: int| 0 <= j < after.len() implies digit_of(#[trigger] after[j])
                    < b by {
                    if j < pos {
                        assert(after[j] == before[j]);
                    } else {
                        assert(after[j] == mid[j - pos]);
                    }
                }
            }
        }
        if !ok {
            bad.push(
                Diagnostic { start: offs[start + pos], end: offs[start + end], cause: Cause::InvalidDigit },
            );
        }
        proof {
            assert(bad@ =~= digit_diags(s@, (t + 1) as nat));
        }
        pos = end;
        t = t + 1;
    }
    proof {
        assert(d.take(len as int) =~= d);
    }
    bad
}

/// Reads the digits, most significant first, until the value outgrows `width` bits; reports
/// every chunk at whose end it had.
#[verifier::rlimit(30)]
fn read_digits(s: &Vec<char>, offs: &Vec<usize>, start: usize, b: u64, k: usize, width: usize) -> (r: (
    [u64; 8],
    Vec<Diagnostic>,
))
    requires
        offs@.len() == s@.len() + 1,
        forall|j: int| 0 <= j <= s@.len() ==> #[trigger] offs@[j] == byte_pos(s@, j as nat),
        s@.len() > 0,
        !bad_prefix(s@),
        start == digits_start(s@),
        b == radix(s@),
        k == chunk_len(b as nat),
        1 <= width <= 512,
        all_digits(digits_of(s@), b as nat),
    ensures
        r.1@ == long_diags(s@, width as nat, chunk_count(digits_of(s@).len(), k as nat)),
        (r.1@.len() > 0) == (seq_val(digits_of(s@), b as nat) >= pow2(width as nat)),
        r.1@.len() == 0 ==> words_val(r.0@) == seq_val(digits_of(s@), b as nat),
{
    let ghost d = digits_of(s@);
    let n = s.len();
    let len: usize = n - start;
    let first: usize = if len == 0 {
        0
    } else {
        (len - 1) % k + 1
    };
    let nch: usize = if len == 0 {
        0
    } else {
        (len - 1) / k + 1
    };
    let mut acc: [u64; 8] = [0u64; 8];
    let mut over = false;
    let mut long: Vec<Diagnostic> = Vec::new();
    let mut t: usize = 0;
    let mut pos: usize = 0;
    proof {
        lemma_val_zeros(acc@);
        lemma_pow2_pos(width as nat);
        assert(d.take(0) =~= Seq::<char>::empty());
    }
    while t < nch
        invariant
            d == digits_of(s@),
            d.len() == len,
            len == n - start,
            n == s@.len(),
            start == digits_start(s@),
            b == radix(s@),
            2 <= b <= 16,
            k == chunk_len(b as nat),
            k > 0,
            offs@.len() == s@.len() + 1,
            forall|j: int| 0 <= j <= s@.len() ==> #[trigger] offs@[j] == byte_pos(s@, j as nat),
            1 <= width <= 512,
            all_digits(d, b as nat),
            nch == chunk_count(len as nat, k as nat),
            first == first_len(len as nat, k as nat),
            t <= nch,
            pos == chunk_start(len as nat, k as nat, t as nat),
            pos <= len,
            t == nch ==> pos == len,
            acc@.len() == 8,
            over == (seq_val(d.take(pos as int), b as nat) >= pow2(width as nat)),
            !over ==> words_val(acc@) == seq_val(d.take(pos as int), b as nat),
            long@ == long_diags(s@, width as nat, t as nat),
            (long@.len() > 0) == over,
        decreases nch - t,
    {
        proof {
            lemma_chunks(len as nat, k as nat, t as nat);
        }
        let end: usize = if t == 0 {
            first
        } else {
            pos + k
        };
        assert(end == chunk_end(len as nat, k as nat, t as nat));
        let ghost was_over = over;
        let mut j: usize = pos;
        while j < end
            invariant
                d == digits_of(s@),
                d.len() == len,
                len == n - start,
                n == s@.len(),
                start == digits_start(s@),
                2 <= b <= 16,
                1 <= width <= 512,
                all_digits(d, b as nat),
                pos <= j <= end <= len,
                acc@.len() == 8,
                was_over ==> over,
                over == (seq_val(d.take(j as int), b as nat) >= pow2(width as nat)),
                !over ==> words_val(acc@) == seq_val(d.take(j as int), b as nat),
            decreases end - j,
        {
            let ghost prev = seq_val(d.take(j as int), b as nat);
            proof {
                lemma_seq_val_step(d, j as int, b as nat);
                assert(d[j as int] == s@[start + j]);
            }
            let dv = digit_value(s[start + j]);
            if !over {
                let carry = mul_add(&mut acc, b, dv);
                let f = fits(&acc, width);
                proof {
                    if carry != 0 {
                        if width < 512 {
                            lemma_pow2_strictly_increases(width as nat, 512);
                        }
                        assert(carry as nat * pow2(512) >= pow2(512)) by (nonlinear_arith)
                            requires
                                carry >= 1,
                        ;
                    }
                }
                if carry != 0 || !f {
                    over = true;
                }
            } else {
                proof {
                    assert(prev * b as nat >= prev) by (nonlinear_arith)
                        requires
                            b >= 2,
                    ;
                }
            }
            j = j + 1;
        }
        if over {
            long.push(Diagnostic { start: offs[start + pos], end: offs[start + end], cause: Cause::TooLong });
        }
        proof {
            assert(long@ =~= long_diags(s@, width as nat, (t + 1) as nat));
        }
        pos = end;
        t = t + 1;
    }
    proof {
        assert(d.take(len as int) =~= d);
    }
    (acc, long)
}

/// Reads `s` into a value of `width` bits: the sign flag and the words of the magnitude, or
/// every finding against the text.
pub fn parse_text(s: &Vec<char>, width: usize) -> (r: Result<(bool, [u64; 8]), Vec<Diagnostic>>)
    requires
        1 <= width <= 512,
    ensures
        match r {
            Ok((neg, w)) => parse_spec(s@, width as nat) == Ok::<(bool, nat), Seq<Diagnostic>>(
                (neg, words_val(w@)),
            ),
            Err(d) => parse_spec(s@, width as nat) == Err::<(bool, nat), Seq<Diagnostic>>(d@),
        },
{
    if s.len() == 0 {
        let mut e: Vec<Diagnostic> = Vec::new();
        e.push(Diagnostic { start: 0, end: 0, cause: Cause::Empty });
        assert(e@ =~= seq![Diagnostic { start: 0, end: 0, cause: Cause::Empty }]);
        return Err(e);
    }
    let (start, b) = match head(s) {
        Some(h) => h,
        None => {
            let i: usize = if s[0] == '-' || s[0] == '+' {
                1
            } else {
                0
            };
            let mut e: Vec<Diagnostic> = Vec::new();
            e.push(Diagnostic { start: i + 1, end: i + 2, cause: Cause::BadPrefix });
            assert(e@ =~= seq![
                Diagnostic {
                    start: (sign_len(s@) + 1) as usize,
                    end: (sign_len(s@) + 2) as usize,
                    cause: Cause::BadPrefix,
                },
            ]);
            return Err(e);
        },
    };
    let k: usize = if b == 2 {
        64
    } else if b == 8 {
        21
    } else if b == 10 {
        19
    } else {
        16
    };
    let offs = byte_offsets(s);
    let bad = digit_check(s, &offs, start, b, k);
    if bad.len() > 0 {
        return Err(bad);
    }
    let (acc, long) = read_digits(s, &offs, start, b, k, width);
    if long.len() > 0 {
        return Err(long);
    }
    Ok((s[0] == '-', acc))
}

} // verus!
