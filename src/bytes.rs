use vstd::prelude::*;

verus! {

/// Byte `j` (0 = most significant) of a big-endian 32-bit word.
pub open spec fn byte_of(w: u32, j: u32) -> u8 {
    ((w >> ((24 - 8 * j) as u32)) & 0xffu32) as u8
}

/// A big-endian 32-bit word made of four bytes.
pub open spec fn be_word(b0: u8, b1: u8, b2: u8, b3: u8) -> u32 {
    ((b0 as u32) << 24u32) | ((b1 as u32) << 16u32) | ((b2 as u32) << 8u32) | (b3 as u32)
}

/// The bytes of a sequence of big-endian words.
pub open spec fn words_to_bytes(m: Seq<u32>) -> Seq<u8> {
    Seq::new(4 * m.len(), |p: int| byte_of(m[p / 4], (p % 4) as u32))
}

/// The big-endian words of a byte sequence whose length is a multiple of four.
pub open spec fn bytes_to_words(b: Seq<u8>) -> Seq<u32> {
    Seq::new(b.len() / 4, |i: int| be_word(b[4 * i], b[4 * i + 1], b[4 * i + 2], b[4 * i + 3]))
}

proof fn lemma_byte_of_be_word(b0: u8, b1: u8, b2: u8, b3: u8)
    by (bit_vector)
    ensures
        byte_of(be_word(b0, b1, b2, b3), 0) == b0,
        byte_of(be_word(b0, b1, b2, b3), 1) == b1,
        byte_of(be_word(b0, b1, b2, b3), 2) == b2,
        byte_of(be_word(b0, b1, b2, b3), 3) == b3,
{
}

proof fn lemma_be_word_of_bytes(w: u32)
    by (bit_vector)
    ensures
        be_word(byte_of(w, 0), byte_of(w, 1), byte_of(w, 2), byte_of(w, 3)) == w,
{
}

proof fn lemma_replace_byte(w: u32, v: u8, j: u32, k: u32)
    by (bit_vector)
    requires
        j < 4,
        k < 4,
    ensures
        byte_of((w & !(0xffu32 << ((24 - 8 * j) as u32))) | ((v as u32) << ((24 - 8 * j) as u32)), k)
            == if k == j {
            v
        } else {
            byte_of(w, k)
        },
{
}

/// Reading words back from their bytes gives the words.
pub proof fn lemma_words_bytes_words(m: Seq<u32>)
    ensures
        bytes_to_words(words_to_bytes(m)) == m,
{
    let b = words_to_bytes(m);
    assert forall|i: int| 0 <= i < m.len() implies #[trigger] bytes_to_words(b)[i] == m[i] by {
        assert((4 * i) / 4 == i && (4 * i) % 4 == 0);
        assert((4 * i + 1) / 4 == i && (4 * i + 1) % 4 == 1);
        assert((4 * i + 2) / 4 == i && (4 * i + 2) % 4 == 2);
        assert((4 * i + 3) / 4 == i && (4 * i + 3) % 4 == 3);
        lemma_be_word_of_bytes(m[i]);
    }
    assert(bytes_to_words(b) =~= m);
}

/// Writing bytes as words and reading them back gives the bytes.
pub proof fn lemma_bytes_words_bytes(b: Seq<u8>)
    requires
        b.len() % 4 == 0,
    ensures
        words_to_bytes(bytes_to_words(b)) == b,
{
    let m = bytes_to_words(b);
    assert forall|p: int| 0 <= p < b.len() implies #[trigger] words_to_bytes(m)[p] == b[p] by {
        let i = p / 4;
        lemma_byte_of_be_word(b[4 * i], b[4 * i + 1], b[4 * i + 2], b[4 * i + 3]);
    }
    assert(words_to_bytes(m) =~= b);
}

/// Sets byte `pos` of a 16-word block, seen as 64 big-endian bytes.
pub fn set_byte(m: &mut [u32; 16], pos: usize, v: u8)
    requires
        pos < 64,
    ensures
        words_to_bytes(final(m)@) == words_to_bytes(old(m)@).update(pos as int, v),
{
    let i = pos / 4;
    let j = (pos % 4) as u32;
    let sh = 24 - 8 * j;
    let w = m[i];
    m[i] = (w & !(0xffu32 << sh)) | ((v as u32) << sh);
    proof {
        let nb = words_to_bytes(m@);
        let ob = words_to_bytes(old(m)@).update(pos as int, v);
        assert forall|p: int| 0 <= p < 64 implies #[trigger] nb[p] == ob[p] by {
            lemma_replace_byte(w, v, j, (p % 4) as u32);
        }
        assert(nb =~= ob);
    }
}

/// The 16 big-endian words of `b[start..start + 64]`.
pub fn words_at(b: &[u8], start: usize) -> (r: [u32; 16])
    requires
        start + 64 <= b@.len(),
    ensures
        r@ == bytes_to_words(b@.subrange(start as int, start + 64)),
{
    let n = b.len();
    let mut r = [0u32; 16];
    let mut i: usize = 0;
    while i < 16
        invariant
            i <= 16,
            n == b@.len(),
            start + 64 <= n,
            forall|j: int|
                0 <= j < i ==> #[trigger] r@[j] == be_word(
                    b@[start + 4 * j],
                    b@[start + 4 * j + 1],
                    b@[start + 4 * j + 2],
                    b@[start + 4 * j + 3],
                ),
        decreases 16 - i,
    {
        let k = start + 4 * i;
        r[i] = ((b[k] as u32) << 24u32) | ((b[k + 1] as u32) << 16u32) | ((b[k + 2] as u32) << 8u32)
            | (b[k + 3] as u32);
        i += 1;
    }
    assert(r@ =~= bytes_to_words(b@.subrange(start as int, start + 64)));
    r
}

/// The ASCII character of a decimal digit.
pub open spec fn ascii_digit(d: nat) -> u8 {
    (48 + d) as u8
}

pub open spec fn pow10(m: nat) -> nat
    decreases m,
{
    if m == 0 {
        1
    } else {
        10 * pow10((m - 1) as nat)
    }
}

/// The shortest ASCII decimal representation of `n`.
pub open spec fn decimal(n: nat) -> Seq<u8>
    decreases n,
{
    if n < 10 {
        seq![ascii_digit(n)]
    } else {
        decimal(n / 10).push(ascii_digit(n % 10))
    }
}

/// The last `m` decimal digits of `n` in ASCII, zero-padded on the left.
pub open spec fn fixed_digits(n: nat, m: nat) -> Seq<u8> {
    Seq::new(m, |i: int| ascii_digit((n / pow10((m - 1 - i) as nat)) % 10))
}

/// The decimal value whose representation is `k` ones.
pub open spec fn ones(k: nat) -> nat
    decreases k,
{
    if k == 0 {
        0
    } else {
        10 * ones((k - 1) as nat) + 1
    }
}

/// A run of `k` ASCII `'1'` characters.
pub open spec fn ones_text(k: nat) -> Seq<u8> {
    Seq::new(k, |i: int| 49u8)
}

pub proof fn lemma_pow10_positive(m: nat)
    ensures
        pow10(m) >= 1,
    decreases m,
{
    if m > 0 {
        lemma_pow10_positive((m - 1) as nat);
    }
}

#[verifier::spinoff_prover]
proof fn lemma_fixed_digits_step(b: nat, m: nat)
    requires
        m >= 1,
    ensures
        fixed_digits(b, m) == fixed_digits(b / 10, (m - 1) as nat).push(ascii_digit(b % 10)),
{
    let lhs = fixed_digits(b, m);
    let rhs = fixed_digits(b / 10, (m - 1) as nat).push(ascii_digit(b % 10));
    assert forall|i: int| 0 <= i < m implies #[trigger] lhs[i] == rhs[i] by {
        if i < m - 1 {
            let e = (m - 2 - i) as nat;
            assert((m - 1 - i) as nat == e + 1);
            assert(pow10(e + 1) == 10 * pow10(e));
            assert(pow10((m - 1 - i) as nat) == 10 * pow10(e));
            lemma_pow10_positive(e);
            vstd::arithmetic::div_mod::lemma_div_denominator(b as int, 10, pow10(e) as int);
            assert(lhs[i] == ascii_digit((b / pow10((m - 1 - i) as nat)) % 10));
            assert(rhs[i] == fixed_digits(b / 10, (m - 1) as nat)[i]);
            assert(rhs[i] == ascii_digit(((b / 10) / pow10(e)) % 10));
            assert((b / 10) / pow10(e) == b / (10 * pow10(e)));
        } else {
            assert(i == m - 1);
            assert((m - 1 - i) as nat == 0);
            assert(pow10(0) == 1);
            assert(b / 1 == b);
            assert(lhs[i] == ascii_digit((b / pow10(0)) % 10));
            assert(rhs[i] == ascii_digit(b % 10));
        }
    }
    assert(lhs =~= rhs);
}

/// The decimal form of `a * 10^m + b` is that of `a` followed by the `m`
/// digits of `b`, when `a` is positive and `b` has at most `m` digits.
pub proof fn lemma_decimal_split(a: nat, b: nat, m: nat)
    requires
        a >= 1,
        b < pow10(m),
    ensures
        decimal(a * pow10(m) + b) == decimal(a) + fixed_digits(b, m),
    decreases m,
{
    if m == 0 {
        assert(fixed_digits(b, 0) =~= Seq::<u8>::empty());
        assert(decimal(a) + fixed_digits(b, 0) =~= decimal(a));
    } else {
        let p = pow10((m - 1) as nat);
        let v = a * pow10(m) + b;
        lemma_pow10_positive((m - 1) as nat);
        assert(pow10(m) == 10 * p);
        assert(b / 10 < p) by (nonlinear_arith)
            requires
                b < 10 * p,
        ;
        assert(v == (a * p + b / 10) * 10 + b % 10) by (nonlinear_arith)
            requires
                v == a * (10 * p) + b,
                b == 10 * (b / 10) + b % 10,
        ;
        assert(v >= 10) by (nonlinear_arith)
            requires
                v == a * (10 * p) + b,
                a >= 1,
                p >= 1,
        ;
        assert(v / 10 == a * p + b / 10 && v % 10 == b % 10) by (nonlinear_arith)
            requires
                v == (a * p + b / 10) * 10 + b % 10,
                b % 10 < 10,
        ;
        lemma_decimal_split(a, b / 10, (m - 1) as nat);
        lemma_fixed_digits_step(b, m);
        assert(decimal(v) == decimal(v / 10).push(ascii_digit(v % 10)));
        assert(decimal(a) + fixed_digits(b, m) =~= (decimal(a) + fixed_digits(
            b / 10,
            (m - 1) as nat,
        )).push(ascii_digit(b % 10)));
    }
}

/// The decimal form of the number written with `k >= 1` ones is `k` ones.
pub proof fn lemma_decimal_ones(k: nat)
    requires
        k >= 1,
    ensures
        decimal(ones(k)) == ones_text(k),
        ones(k) >= 1,
    decreases k,
{
    if k == 1 {
        assert(ones(0) == 0);
        assert(ones(1) == 10 * ones(0) + 1);
        assert(decimal(1) =~= ones_text(1));
    } else {
        lemma_decimal_ones((k - 1) as nat);
        let o = ones((k - 1) as nat);
        assert(ones(k) == 10 * o + 1);
        assert((10 * o + 1) / 10 == o && (10 * o + 1) % 10 == 1);
        assert(decimal(ones(k)) =~= ones_text(k));
    }
}

/// The decimal form of a two-digit number is its two digits.
pub proof fn lemma_decimal_two_digits(n: nat)
    requires
        10 <= n < 100,
    ensures
        decimal(n) == fixed_digits(n, 2),
{
    assert(pow10(0) == 1 && pow10(1) == 10);
    assert(decimal(n / 10) == seq![ascii_digit(n / 10)]);
    assert(decimal(n) == seq![ascii_digit(n / 10)].push(ascii_digit(n % 10)));
    let f = fixed_digits(n, 2);
    assert(f[0] == ascii_digit((n / 10) % 10));
    assert(f[1] == ascii_digit((n / 1) % 10));
    assert((n / 10) % 10 == n / 10);
    assert(decimal(n) =~= f);
}

/// Writes the last `count` decimal digits of `n` in ASCII, zero-padded, at
/// bytes `pos..pos + count` of a 16-word block.
pub fn write_digits(m: &mut [u32; 16], pos: usize, n: u64, count: usize)
    requires
        pos + count <= 64,
    ensures
        words_to_bytes(final(m)@) == words_to_bytes(old(m)@).subrange(0, pos as int) + fixed_digits(
            n as nat,
            count as nat,
        ) + words_to_bytes(old(m)@).subrange(pos + count, 64),
{
    let ghost old_bytes = words_to_bytes(old(m)@);
    let ghost digits = fixed_digits(n as nat, count as nat);
    let mut cur = n;
    let mut i: usize = count;
    assert(pow10(0) == 1);
    assert(n as nat / 1 == n as nat);
    while i > 0
        invariant
            i <= count,
            pos + count <= 64,
            old_bytes == words_to_bytes(old(m)@),
            digits == fixed_digits(n as nat, count as nat),
            cur as nat == n as nat / pow10((count - i) as nat),
            words_to_bytes(m@).len() == 64,
            forall|q: int|
                0 <= q < 64 ==> #[trigger] words_to_bytes(m@)[q] == if pos + i <= q < pos + count {
                    digits[q - pos]
                } else {
                    old_bytes[q]
                },
        decreases i,
    {
        let d = (cur % 10) as u8;
        set_byte(m, pos + i - 1, d + 48);
        proof {
            let e = (count - i) as nat;
            lemma_pow10_positive(e);
            vstd::arithmetic::div_mod::lemma_div_denominator(n as int, pow10(e) as int, 10);
            assert(pow10(e + 1) == 10 * pow10(e));
            assert(digits[i - 1] == ascii_digit((n as nat / pow10(e)) % 10));
        }
        cur = cur / 10;
        i = i - 1;
    }
    assert(words_to_bytes(m@) =~= old_bytes.subrange(0, pos as int) + digits + old_bytes.subrange(
        pos + count,
        64,
    ));
}

/// Each extra one digit makes the number larger.
pub proof fn lemma_ones_monotone(j: nat, k: nat)
    requires
        j <= k,
    ensures
        ones(j) <= ones(k),
    decreases k,
{
    if j < k {
        lemma_ones_monotone(j, (k - 1) as nat);
    }
}

/// The text of a nonce made of `k` filler ones, two lane digits `np` and
/// seven inner digits `ik`.
pub proof fn lemma_nonce_text(k: nat, np: nat, ik: nat)
    requires
        10 <= np < 100,
        ik < 10_000_000,
    ensures
        decimal(ones(k) * 1_000_000_000 + np * 10_000_000 + ik) == ones_text(k) + fixed_digits(np, 2)
            + fixed_digits(ik, 7),
{
    reveal_with_fuel(pow10, 8);
    assert(pow10(7) == 10_000_000);
    assert(pow10(2) == 100);
    lemma_decimal_two_digits(np);
    if k == 0 {
        assert(ones(0) == 0);
        lemma_decimal_split(np, ik, 7);
        assert(ones_text(0) + fixed_digits(np, 2) =~= fixed_digits(np, 2));
    } else {
        lemma_decimal_ones(k);
        let o = ones(k);
        let a = o * 100 + np;
        assert(o * 1_000_000_000 + np * 10_000_000 + ik == a * 10_000_000 + ik) by (nonlinear_arith)
            requires
                a == o * 100 + np,
        ;
        lemma_decimal_split(a, ik, 7);
        lemma_decimal_split(o, np, 2);
    }
}

/// The decimal text of a positive number does not start with `'0'`.
pub proof fn lemma_decimal_no_leading_zero(n: nat)
    requires
        n >= 1,
    ensures
        decimal(n).len() >= 1,
        decimal(n)[0] != 48u8,
    decreases n,
{
    if n >= 10 {
        lemma_decimal_no_leading_zero(n / 10);
    }
}

/// A number written with `k` ones has fewer than `k + 1` digits.
pub proof fn lemma_ones_below_pow10(k: nat)
    ensures
        ones(k) < pow10(k),
    decreases k,
{
    if k > 0 {
        lemma_ones_below_pow10((k - 1) as nat);
    }
}

pub proof fn lemma_pow10_monotone(a: nat, b: nat)
    requires
        a <= b,
    ensures
        pow10(a) <= pow10(b),
    decreases b,
{
    if a < b {
        lemma_pow10_monotone(a, (b - 1) as nat);
    }
}

/// The four bytes of a word of zeros make the zero word; the eight bytes
/// of a 64-bit value make its two halves.
pub proof fn lemma_length_words(x: u64)
    by (bit_vector)
    ensures
        be_word(0, 0, 0, 0) == 0,
        be_word(
            ((x >> 56u64) & 0xffu64) as u8,
            ((x >> 48u64) & 0xffu64) as u8,
            ((x >> 40u64) & 0xffu64) as u8,
            ((x >> 32u64) & 0xffu64) as u8,
        ) == (x >> 32u64) as u32,
        be_word(
            ((x >> 24u64) & 0xffu64) as u8,
            ((x >> 16u64) & 0xffu64) as u8,
            ((x >> 8u64) & 0xffu64) as u8,
            ((x >> 0u64) & 0xffu64) as u8,
        ) == x as u32,
{
}

/// The 64 big-endian bytes of a 16-word block.
pub fn block_to_bytes(m: &[u32; 16]) -> (r: [u8; 64])
    ensures
        r@ == words_to_bytes(m@),
{
    let mut r = [0u8; 64];
    let mut p: usize = 0;
    while p < 64
        invariant
            p <= 64,
            forall|q: int| 0 <= q < p ==> #[trigger] r@[q] == words_to_bytes(m@)[q],
        decreases 64 - p,
    {
        let j = (p % 4) as u32;
        r[p] = ((m[p / 4] >> (24 - 8 * j)) & 0xffu32) as u8;
        p += 1;
    }
    assert(r@ =~= words_to_bytes(m@));
    r
}

/// Whether every byte is an ASCII decimal digit.
pub open spec fn is_digit_text(s: Seq<u8>) -> bool {
    forall|i: int| 0 <= i < s.len() ==> 48 <= #[trigger] s[i] < 58
}

/// The value of a text of ASCII decimal digits, most significant first.
pub open spec fn digits_value(s: Seq<u8>) -> nat
    decreases s.len(),
{
    if s.len() == 0 {
        0
    } else {
        digits_value(s.drop_last()) * 10 + (s.last() - 48) as nat
    }
}

/// A digit text is the zero-padded text of its own value.
pub proof fn lemma_digits_value_text(s: Seq<u8>)
    requires
        is_digit_text(s),
    ensures
        fixed_digits(digits_value(s), s.len()) == s,
        digits_value(s) < pow10(s.len()),
    decreases s.len(),
{
    if s.len() == 0 {
        assert(fixed_digits(0, 0) =~= s);
    } else {
        let t = s.drop_last();
        assert(is_digit_text(t)) by {
            assert forall|i: int| 0 <= i < t.len() implies 48 <= #[trigger] t[i] < 58 by {
                assert(t[i] == s[i]);
            }
        }
        lemma_digits_value_text(t);
        let v = digits_value(s);
        let d = (s.last() - 48) as nat;
        assert(s.last() == s[s.len() - 1]);
        assert(d < 10);
        assert(v / 10 == digits_value(t) && v % 10 == d) by (nonlinear_arith)
            requires
                v == digits_value(t) * 10 + d,
                d < 10,
        ;
        lemma_fixed_digits_step(v, s.len());
        assert(ascii_digit(d) == s.last());
        assert(fixed_digits(v, s.len()) =~= s);
        assert(pow10(s.len()) == 10 * pow10(t.len()));
        assert(v < pow10(s.len())) by (nonlinear_arith)
            requires
                v == digits_value(t) * 10 + d,
                d < 10,
                digits_value(t) < pow10(t.len()),
                pow10(s.len()) == 10 * pow10(t.len()),
        ;
    }
}

/// Zero-padded digits are digit text.
pub proof fn lemma_fixed_digits_text(n: nat, m: nat)
    ensures
        is_digit_text(fixed_digits(n, m)),
        is_digit_text(fixed_digits(n, m).reverse()),
{
    let f = fixed_digits(n, m);
    assert forall|i: int| 0 <= i < f.len() implies 48 <= #[trigger] f[i] < 58 by {}
    assert forall|i: int| 0 <= i < f.len() implies 48 <= #[trigger] f.reverse()[i] < 58 by {
        assert(f.reverse()[i] == f[f.len() - 1 - i]);
    }
}

/// A number with exactly `m` digits is its own `m` zero-padded digits.
pub proof fn lemma_decimal_fixed_width(n: nat, m: nat)
    requires
        m >= 1,
        pow10((m - 1) as nat) <= n < pow10(m),
    ensures
        decimal(n) == fixed_digits(n, m),
    decreases m,
{
    if m == 1 {
        assert(pow10(0) == 1 && pow10(1) == 10);
        assert(n / 1 == n);
        assert(decimal(n) =~= fixed_digits(n, 1));
    } else {
        let p = pow10((m - 2) as nat);
        lemma_pow10_positive((m - 2) as nat);
        assert(pow10((m - 1) as nat) == 10 * p);
        assert(pow10(m) == 10 * (10 * p));
        assert(p <= n / 10 < 10 * p && n >= 10) by (nonlinear_arith)
            requires
                10 * p <= n < 10 * (10 * p),
                p >= 1,
        ;
        lemma_decimal_fixed_width(n / 10, (m - 1) as nat);
        lemma_fixed_digits_step(n, m);
    }
}

/// Writes the last `count` decimal digits of `n` in ASCII, least
/// significant first, at bytes `pos..pos + count` of a 16-word block.
pub fn write_digits_reversed(m: &mut [u32; 16], pos: usize, n: u64, count: usize)
    requires
        pos + count <= 64,
    ensures
        words_to_bytes(final(m)@) == words_to_bytes(old(m)@).subrange(0, pos as int) + fixed_digits(
            n as nat,
            count as nat,
        ).reverse() + words_to_bytes(old(m)@).subrange(pos + count, 64),
{
    let ghost old_bytes = words_to_bytes(old(m)@);
    let ghost rev = fixed_digits(n as nat, count as nat).reverse();
    let mut cur = n;
    let mut j: usize = 0;
    assert(pow10(0) == 1);
    assert(n as nat / 1 == n as nat);
    while j < count
        invariant
            j <= count,
            pos + count <= 64,
            old_bytes == words_to_bytes(old(m)@),
            rev == fixed_digits(n as nat, count as nat).reverse(),
            cur as nat == n as nat / pow10(j as nat),
            words_to_bytes(m@).len() == 64,
            forall|q: int|
                0 <= q < 64 ==> #[trigger] words_to_bytes(m@)[q] == if pos <= q < pos + j {
                    rev[q - pos]
                } else {
                    old_bytes[q]
                },
        decreases count - j,
    {
        let d = (cur % 10) as u8;
        set_byte(m, pos + j, d + 48);
        proof {
            let e = j as nat;
            lemma_pow10_positive(e);
            vstd::arithmetic::div_mod::lemma_div_denominator(n as int, pow10(e) as int, 10);
            assert(pow10(e + 1) == 10 * pow10(e));
            assert(rev[j as int] == fixed_digits(n as nat, count as nat)[count - 1 - j]);
            assert(count - 1 - (count - 1 - j) == j);
        }
        cur = cur / 10;
        j = j + 1;
    }
    assert(words_to_bytes(m@) =~= old_bytes.subrange(0, pos as int) + rev + old_bytes.subrange(
        pos + count,
        64,
    ));
}

} // verus!
