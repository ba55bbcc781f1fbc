use vstd::prelude::*;
use crate::bytes::{bytes_to_words, words_at, words_to_bytes, lemma_words_bytes_words};
use crate::sha256::{compress, compress_block, initial_state};

verus! {

/// Absorbs every complete 64-byte block of `bytes` into state `s`; a
/// trailing partial block is ignored.
pub open spec fn absorb(s: Seq<u32>, bytes: Seq<u8>) -> Seq<u32>
    decreases bytes.len(),
{
    if bytes.len() < 64 {
        s
    } else {
        absorb(
            compress(s, bytes_to_words(bytes.subrange(0, 64))),
            bytes.subrange(64, bytes.len() as int),
        )
    }
}

/// The eight big-endian bytes of a 64-bit value.
pub open spec fn be64_bytes(x: u64) -> Seq<u8> {
    Seq::new(8, |i: int| ((x >> ((56 - 8 * i) as u64)) & 0xffu64) as u8)
}

/// A run of `n` zero bytes.
pub open spec fn zeros(n: nat) -> Seq<u8> {
    Seq::new(n, |i: int| 0u8)
}

/// The SHA-256 padding of a message of `len` bytes: `0x80`, zeros up to
/// 8 bytes before a block boundary, then the bit length big-endian.
pub open spec fn padding(len: nat) -> Seq<u8> {
    seq![0x80u8] + zeros(((64 - (len + 9) % 64) % 64) as nat) + be64_bytes((8 * len) as u64)
}

/// The final SHA-256 state (the digest as eight words) of a message.
pub open spec fn sha256_digest(msg: Seq<u8>) -> Seq<u32> {
    absorb(initial_state(), msg + padding(msg.len()))
}

/// The first 128 bits of a digest as a big-endian integer.
pub open spec fn top128(d: Seq<u32>) -> int {
    d[0] as int * 0x1_0000_0000_0000_0000_0000_0000 + d[1] as int * 0x1_0000_0000_0000_0000
        + d[2] as int * 0x1_0000_0000 + d[3] as int
}

pub proof fn lemma_absorb_one(s: Seq<u32>, b: Seq<u8>)
    requires
        b.len() == 64,
    ensures
        absorb(s, b) == compress(s, bytes_to_words(b)),
{
    assert(b.subrange(0, 64) =~= b);
    assert(absorb(compress(s, bytes_to_words(b)), b.subrange(64, 64)) == compress(
        s,
        bytes_to_words(b),
    ));
}

/// Absorbing `a + b` is absorbing `a`, then `b`, when `a` is whole blocks.
pub proof fn lemma_absorb_concat(s: Seq<u32>, a: Seq<u8>, b: Seq<u8>)
    requires
        a.len() % 64 == 0,
    ensures
        absorb(s, a + b) == absorb(absorb(s, a), b),
    decreases a.len(),
{
    if a.len() == 0 {
        assert(a + b =~= b);
    } else {
        let ab = a + b;
        let s1 = compress(s, bytes_to_words(a.subrange(0, 64)));
        assert(ab.subrange(0, 64) =~= a.subrange(0, 64));
        assert(ab.subrange(64, ab.len() as int) =~= a.subrange(64, a.len() as int) + b);
        lemma_absorb_concat(s1, a.subrange(64, a.len() as int), b);
    }
}

/// The chaining state after every complete block of `prefix`, and the
/// number of those blocks.
pub fn absorb_full_blocks(prefix: &[u8]) -> (r: ([u32; 8], usize))
    ensures
        r.1 == prefix@.len() / 64,
        r.0@ == absorb(initial_state(), prefix@.subrange(0, 64 * r.1)),
{
    let mut state: [u32; 8] = [
        0x6a09e667,
        0xbb67ae85,
        0x3c6ef372,
        0xa54ff53a,
        0x510e527f,
        0x9b05688c,
        0x1f83d9ab,
        0x5be0cd19,
    ];
    assert(state@ =~= initial_state());
    assert(prefix@.subrange(0, 0) =~= Seq::<u8>::empty());
    let n = prefix.len();
    let mut off: usize = 0;
    let mut count: usize = 0;
    while n - off >= 64
        invariant
            n == prefix@.len(),
            off == 64 * count,
            off <= n,
            state@ == absorb(initial_state(), prefix@.subrange(0, off as int)),
        decreases n - off,
    {
        let block = words_at(prefix, off);
        let ghost before = prefix@.subrange(0, off as int);
        let ghost piece = prefix@.subrange(off as int, off + 64);
        proof {
            lemma_absorb_concat(initial_state(), before, piece);
            lemma_absorb_one(state@, piece);
            assert(before + piece =~= prefix@.subrange(0, off + 64));
        }
        compress_block(&mut state, &block);
        off = off + 64;
        count = count + 1;
    }
    (state, count)
}

/// The chaining state after absorbing one more 64-byte block.
pub fn absorb_block_bytes(state: &mut [u32; 8], block: &[u8; 64])
    ensures
        final(state)@ == absorb(old(state)@, block@),
{
    let words = words_at(block, 0);
    assert(block@.subrange(0, 64) =~= block@);
    proof {
        lemma_absorb_one(state@, block@);
    }
    compress_block(state, &words);
}

/// Compressing a block given as words is absorbing its bytes.
pub proof fn lemma_absorb_words(s: Seq<u32>, m: Seq<u32>)
    requires
        m.len() == 16,
    ensures
        absorb(s, words_to_bytes(m)) == compress(s, m),
{
    lemma_absorb_one(s, words_to_bytes(m));
    lemma_words_bytes_words(m);
}

/// Packs the first four digest words into a big-endian 128-bit integer.
pub fn pack_top128(d: &[u32; 8]) -> (r: u128)
    ensures
        r == top128(d@),
{
    let a = d[0] as u128;
    let b = d[1] as u128;
    let c = d[2] as u128;
    let e = d[3] as u128;
    assert(a * 0x1_0000_0000_0000_0000_0000_0000 + b * 0x1_0000_0000_0000_0000 + c * 0x1_0000_0000
        + e <= u128::MAX) by (nonlinear_arith)
        requires
            a < 0x1_0000_0000,
            b < 0x1_0000_0000,
            c < 0x1_0000_0000,
            e < 0x1_0000_0000,
    ;
    a * 0x1_0000_0000_0000_0000_0000_0000 + b * 0x1_0000_0000_0000_0000 + c * 0x1_0000_0000 + e
}

/// With `n % 64 == di <= 46`, the padding of an `n + 9` byte message is
/// `0x80`, `46 - di` zeros and the bit length.
pub proof fn lemma_padding_single(n: nat, di: nat)
    requires
        n % 64 == di,
        di <= 46,
    ensures
        padding(n + 9) == seq![0x80u8] + zeros((46 - di) as nat) + be64_bytes((8 * (n + 9)) as u64),
        padding(n + 9).len() == 55 - di,
{
    vstd::arithmetic::div_mod::lemma_add_mod_noop(n as int, 18, 64);
    assert((n + 18) % 64 == (di + 18) % 64);
}

/// Splitting a message whose final block holds `di` bytes of text, a
/// 9-byte window and the padding.
pub proof fn lemma_final_block_digest(ps: Seq<u32>, t: Seq<u8>, di: int, b: Seq<u8>, w: Seq<u8>)
    requires
        0 <= di <= 46,
        t.len() % 64 == di,
        ps == absorb(initial_state(), t.subrange(0, t.len() - di)),
        b.len() == 64,
        b.subrange(0, di) == t.subrange(t.len() - di, t.len() as int),
        b.subrange(di + 9, 64) == padding((t.len() + 9) as nat),
        w.len() == 9,
    ensures
        absorb(ps, b.subrange(0, di) + w + b.subrange(di + 9, 64)) == sha256_digest(t + w),
{
    let n = t.len();
    let msg = t + w;
    let head = t.subrange(0, n - di);
    let rest = b.subrange(0, di) + w + b.subrange(di + 9, 64);
    lemma_padding_single(n as nat, di as nat);
    assert(msg + padding(msg.len()) =~= head + rest);
    vstd::arithmetic::div_mod::lemma_fundamental_div_mod(n as int, 64);
    vstd::arithmetic::div_mod::lemma_mod_multiples_basic(n as int / 64, 64);
    assert(head.len() % 64 == 0);
    lemma_absorb_concat(initial_state(), head, rest);
}

/// Splitting a message whose last text block holds 54 bytes of text, a
/// 9-byte window and `0x80`, followed by a block of zeros and the length.
pub proof fn lemma_two_block_digest(ps: Seq<u32>, t: Seq<u8>, b: Seq<u8>, w: Seq<u8>)
    requires
        t.len() % 64 == 54,
        ps == absorb(initial_state(), t.subrange(0, t.len() - 54)),
        b.len() == 64,
        b.subrange(0, 54) == t.subrange(t.len() - 54, t.len() as int),
        b[63] == 0x80u8,
        w.len() == 9,
    ensures
        absorb(
            absorb(ps, b.subrange(0, 54) + w + seq![0x80u8]),
            zeros(56) + be64_bytes((8 * (t.len() + 9)) as u64),
        ) == sha256_digest(t + w),
{
    let n = t.len();
    let msg = t + w;
    let head = t.subrange(0, n - 54);
    let first = b.subrange(0, 54) + w + seq![0x80u8];
    let second = zeros(56) + be64_bytes((8 * (n + 9)) as u64);
    vstd::arithmetic::div_mod::lemma_add_mod_noop(n as int, 18, 64);
    assert((n + 18) % 64 == 8);
    assert(padding(msg.len()) =~= seq![0x80u8] + second);
    assert(msg + padding(msg.len()) =~= head + (first + second));
    vstd::arithmetic::div_mod::lemma_fundamental_div_mod(n as int, 64);
    vstd::arithmetic::div_mod::lemma_mod_multiples_basic(n as int / 64, 64);
    lemma_absorb_concat(initial_state(), head, first + second);
    lemma_absorb_concat(ps, first, second);
}

/// Absorbing ignores a trailing partial block.
pub proof fn lemma_absorb_full_part(s: Seq<u32>, x: Seq<u8>)
    ensures
        absorb(s, x) == absorb(s, x.subrange(0, x.len() - x.len() % 64)),
{
    let cut = x.len() - x.len() % 64;
    vstd::arithmetic::div_mod::lemma_fundamental_div_mod(x.len() as int, 64);
    vstd::arithmetic::div_mod::lemma_mod_multiples_basic(x.len() as int / 64, 64);
    let head = x.subrange(0, cut);
    let rest = x.subrange(cut, x.len() as int);
    assert(head + rest =~= x);
    lemma_absorb_concat(s, head, rest);
}

} // verus!
