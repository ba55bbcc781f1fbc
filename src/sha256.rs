use vstd::prelude::*;

verus! {

/// Rotate a 32-bit word right by `n` bits.
pub open spec fn rotr(x: u32, n: u32) -> u32 {
    (x >> n) | (x << ((32 - n) as u32))
}

pub open spec fn big_sigma0(x: u32) -> u32 {
    rotr(x, 2) ^ rotr(x, 13) ^ rotr(x, 22)
}

pub open spec fn big_sigma1(x: u32) -> u32 {
    rotr(x, 6) ^ rotr(x, 11) ^ rotr(x, 25)
}

pub open spec fn small_sigma0(x: u32) -> u32 {
    rotr(x, 7) ^ rotr(x, 18) ^ (x >> 3u32)
}

pub open spec fn small_sigma1(x: u32) -> u32 {
    rotr(x, 17) ^ rotr(x, 19) ^ (x >> 10u32)
}

pub open spec fn choice(e: u32, f: u32, g: u32) -> u32 {
    (e & f) ^ (!e & g)
}

pub open spec fn majority(a: u32, b: u32, c: u32) -> u32 {
    (a & b) ^ (a & c) ^ (b & c)
}

/// The SHA-256 round constants.
pub open spec fn round_k(i: usize) -> u32 {
    match i {
        0 => 0x428a2f98,
        1 => 0x71374491,
        2 => 0xb5c0fbcf,
        3 => 0xe9b5dba5,
        4 => 0x3956c25b,
        5 => 0x59f111f1,
        6 => 0x923f82a4,
        7 => 0xab1c5ed5,
        8 => 0xd807aa98,
        9 => 0x12835b01,
        10 => 0x243185be,
        11 => 0x550c7dc3,
        12 => 0x72be5d74,
        13 => 0x80deb1fe,
        14 => 0x9bdc06a7,
        15 => 0xc19bf174,
        16 => 0xe49b69c1,
        17 => 0xefbe4786,
        18 => 0x0fc19dc6,
        19 => 0x240ca1cc,
        20 => 0x2de92c6f,
        21 => 0x4a7484aa,
        22 => 0x5cb0a9dc,
        23 => 0x76f988da,
        24 => 0x983e5152,
        25 => 0xa831c66d,
        26 => 0xb00327c8,
        27 => 0xbf597fc7,
        28 => 0xc6e00bf3,
        29 => 0xd5a79147,
        30 => 0x06ca6351,
        31 => 0x14292967,
        32 => 0x27b70a85,
        33 => 0x2e1b2138,
        34 => 0x4d2c6dfc,
        35 => 0x53380d13,
        36 => 0x650a7354,
        37 => 0x766a0abb,
        38 => 0x81c2c92e,
        39 => 0x92722c85,
        40 => 0xa2bfe8a1,
        41 => 0xa81a664b,
        42 => 0xc24b8b70,
        43 => 0xc76c51a3,
        44 => 0xd192e819,
        45 => 0xd6990624,
        46 => 0xf40e3585,
        47 => 0x106aa070,
        48 => 0x19a4c116,
        49 => 0x1e376c08,
        50 => 0x2748774c,
        51 => 0x34b0bcb5,
        52 => 0x391c0cb3,
        53 => 0x4ed8aa4a,
        54 => 0x5b9cca4f,
        55 => 0x682e6ff3,
        56 => 0x748f82ee,
        57 => 0x78a5636f,
        58 => 0x84c87814,
        59 => 0x8cc70208,
        60 => 0x90befffa,
        61 => 0xa4506ceb,
        62 => 0xbef9a3f7,
        63 => 0xc67178f2,
        _ => 0,
    }
}

/// The SHA-256 initial chaining state.
pub open spec fn initial_state() -> Seq<u32> {
    seq![
        0x6a09e667u32, 0xbb67ae85u32, 0x3c6ef372u32, 0xa54ff53au32,
        0x510e527fu32, 0x9b05688cu32, 0x1f83d9abu32, 0x5be0cd19u32,
    ]
}

/// Word `t` of the message schedule of a 16-word block.
pub open spec fn schedule_word(block: Seq<u32>, t: int) -> u32
    decreases t,
{
    if t < 16 {
        block[t]
    } else {
        small_sigma1(schedule_word(block, t - 2)).wrapping_add(schedule_word(block, t - 7)).wrapping_add(
            small_sigma0(schedule_word(block, t - 15)),
        ).wrapping_add(schedule_word(block, t - 16))
    }
}

/// The full 64-word message schedule of a 16-word block.
pub open spec fn schedule(block: Seq<u32>) -> Seq<u32> {
    Seq::new(64, |t: int| schedule_word(block, t))
}

/// One compression round applied to the working variables A..H.
pub open spec fn round_step(s: Seq<u32>, k: u32, w: u32) -> Seq<u32> {
    let t1 = s[7].wrapping_add(big_sigma1(s[4])).wrapping_add(choice(s[4], s[5], s[6])).wrapping_add(
        k,
    ).wrapping_add(w);
    let t2 = big_sigma0(s[0]).wrapping_add(majority(s[0], s[1], s[2]));
    seq![t1.wrapping_add(t2), s[0], s[1], s[2], s[3].wrapping_add(t1), s[4], s[5], s[6]]
}

/// The working variables after the first `n` rounds over schedule `w`.
pub open spec fn rounds(s: Seq<u32>, w: Seq<u32>, n: nat) -> Seq<u32>
    decreases n,
{
    if n == 0 {
        s
    } else {
        round_step(rounds(s, w, (n - 1) as nat), round_k((n - 1) as usize), w[n - 1])
    }
}

/// All 64 rounds of the compression of `block` from state `s`, without
/// adding the input state back.
pub open spec fn compress_rounds(s: Seq<u32>, block: Seq<u32>) -> Seq<u32> {
    rounds(s, schedule(block), 64)
}

/// Lane-wise sum of two 8-word states.
pub open spec fn add_states(s: Seq<u32>, t: Seq<u32>) -> Seq<u32> {
    Seq::new(8, |i: int| s[i].wrapping_add(t[i]))
}

/// The standard single-block compression function, feedback included.
pub open spec fn compress(s: Seq<u32>, block: Seq<u32>) -> Seq<u32> {
    add_states(s, compress_rounds(s, block))
}

fn round_constant(i: usize) -> (r: u32)
    requires
        i < 64,
    ensures
        r == round_k(i),
{
    match i {
        0 => 0x428a2f98,
        1 => 0x71374491,
        2 => 0xb5c0fbcf,
        3 => 0xe9b5dba5,
        4 => 0x3956c25b,
        5 => 0x59f111f1,
        6 => 0x923f82a4,
        7 => 0xab1c5ed5,
        8 => 0xd807aa98,
        9 => 0x12835b01,
        10 => 0x243185be,
        11 => 0x550c7dc3,
        12 => 0x72be5d74,
        13 => 0x80deb1fe,
        14 => 0x9bdc06a7,
        15 => 0xc19bf174,
        16 => 0xe49b69c1,
        17 => 0xefbe4786,
        18 => 0x0fc19dc6,
        19 => 0x240ca1cc,
        20 => 0x2de92c6f,
        21 => 0x4a7484aa,
        22 => 0x5cb0a9dc,
        23 => 0x76f988da,
        24 => 0x983e5152,
        25 => 0xa831c66d,
        26 => 0xb00327c8,
        27 => 0xbf597fc7,
        28 => 0xc6e00bf3,
        29 => 0xd5a79147,
        30 => 0x06ca6351,
        31 => 0x14292967,
        32 => 0x27b70a85,
        33 => 0x2e1b2138,
        34 => 0x4d2c6dfc,
        35 => 0x53380d13,
        36 => 0x650a7354,
        37 => 0x766a0abb,
        38 => 0x81c2c92e,
        39 => 0x92722c85,
        40 => 0xa2bfe8a1,
        41 => 0xa81a664b,
        42 => 0xc24b8b70,
        43 => 0xc76c51a3,
        44 => 0xd192e819,
        45 => 0xd6990624,
        46 => 0xf40e3585,
        47 => 0x106aa070,
        48 => 0x19a4c116,
        49 => 0x1e376c08,
        50 => 0x2748774c,
        51 => 0x34b0bcb5,
        52 => 0x391c0cb3,
        53 => 0x4ed8aa4a,
        54 => 0x5b9cca4f,
        55 => 0x682e6ff3,
        56 => 0x748f82ee,
        57 => 0x78a5636f,
        58 => 0x84c87814,
        59 => 0x8cc70208,
        60 => 0x90befffa,
        61 => 0xa4506ceb,
        62 => 0xbef9a3f7,
        63 => 0xc67178f2,
        _ => 0,
    }
}

fn rotate(x: u32, n: u32) -> (r: u32)
    requires
        0 < n < 32,
    ensures
        r == rotr(x, n),
{
    (x >> n) | (x << (32 - n))
}

fn sum0(x: u32) -> (r: u32)
    ensures
        r == big_sigma0(x),
{
    rotate(x, 2) ^ rotate(x, 13) ^ rotate(x, 22)
}

fn sum1(x: u32) -> (r: u32)
    ensures
        r == big_sigma1(x),
{
    rotate(x, 6) ^ rotate(x, 11) ^ rotate(x, 25)
}

fn sig0(x: u32) -> (r: u32)
    ensures
        r == small_sigma0(x),
{
    rotate(x, 7) ^ rotate(x, 18) ^ (x >> 3u32)
}

fn sig1(x: u32) -> (r: u32)
    ensures
        r == small_sigma1(x),
{
    rotate(x, 17) ^ rotate(x, 19) ^ (x >> 10u32)
}

/// Fills words 16..64 of `w` from its first 16 words.
pub fn expand_schedule(w: &mut [u32; 64])
    ensures
        final(w)@ == schedule(old(w)@.subrange(0, 16)),
{
    let ghost block = old(w)@.subrange(0, 16);
    let mut t: usize = 16;
    while t < 64
        invariant
            16 <= t <= 64,
            block == old(w)@.subrange(0, 16),
            forall|i: int| 0 <= i < t ==> #[trigger] w@[i] == schedule_word(block, i),
        decreases 64 - t,
    {
        let x = sig1(w[t - 2]).wrapping_add(w[t - 7]).wrapping_add(sig0(w[t - 15])).wrapping_add(
            w[t - 16],
        );
        w[t] = x;
        t += 1;
    }
    assert(w@ =~= schedule(block));
}

/// Runs the 64 rounds over an expanded schedule, without feedback.
pub fn run_rounds(s: &[u32; 8], w: &[u32; 64]) -> (r: [u32; 8])
    ensures
        r@ == rounds(s@, w@, 64),
{
    let mut a = s[0];
    let mut b = s[1];
    let mut c = s[2];
    let mut d = s[3];
    let mut e = s[4];
    let mut f = s[5];
    let mut g = s[6];
    let mut h = s[7];
    proof {
        assert(seq![a, b, c, d, e, f, g, h] =~= s@);
    }
    let mut t: usize = 0;
    while t < 64
        invariant
            t <= 64,
            seq![a, b, c, d, e, f, g, h] == rounds(s@, w@, t as nat),
        decreases 64 - t,
    {
        let t1 = h.wrapping_add(sum1(e)).wrapping_add((e & f) ^ (!e & g)).wrapping_add(
            round_constant(t),
        ).wrapping_add(w[t]);
        let t2 = sum0(a).wrapping_add((a & b) ^ (a & c) ^ (b & c));
        h = g;
        g = f;
        f = e;
        e = d.wrapping_add(t1);
        d = c;
        c = b;
        b = a;
        a = t1.wrapping_add(t2);
        t += 1;
    }
    let r = [a, b, c, d, e, f, g, h];
    assert(r@ =~= seq![a, b, c, d, e, f, g, h]);
    r
}

/// The standard single-block SHA-256 compression, feedback included.
pub fn compress_block(state: &mut [u32; 8], block: &[u32; 16])
    ensures
        final(state)@ == compress(old(state)@, block@),
{
    let mut w = [0u32; 64];
    let mut i: usize = 0;
    while i < 16
        invariant
            i <= 16,
            forall|j: int| 0 <= j < i ==> #[trigger] w@[j] == block@[j],
        decreases 16 - i,
    {
        w[i] = block[i];
        i += 1;
    }
    assert(w@.subrange(0, 16) =~= block@);
    expand_schedule(&mut w);
    let r = run_rounds(state, &w);
    let ghost s0 = state@;
    let mut i: usize = 0;
    while i < 8
        invariant
            i <= 8,
            s0 == old(state)@,
            r@ == compress_rounds(s0, block@),
            forall|j: int| 0 <= j < i ==> #[trigger] state@[j] == s0[j].wrapping_add(r@[j]),
            forall|j: int| i <= j < 8 ==> #[trigger] state@[j] == s0[j],
        decreases 8 - i,
    {
        state[i] = state[i].wrapping_add(r[i]);
        i += 1;
    }
    assert(state@ =~= compress(s0, block@));
}

/// Sixteen independent compressions without feedback: lane `l` runs the 64
/// rounds of `blocks[l]` from `state[l]`.
pub fn compress16_without_feedback(state: &mut [[u32; 8]; 16], blocks: &[[u32; 16]; 16])
    ensures
        forall|l: int|
            0 <= l < 16 ==> #[trigger] final(state)@[l]@ == compress_rounds(
                old(state)@[l]@,
                blocks@[l]@,
            ),
{
    let mut l: usize = 0;
    while l < 16
        invariant
            l <= 16,
            forall|j: int|
                0 <= j < l ==> #[trigger] state@[j]@ == compress_rounds(
                    old(state)@[j]@,
                    blocks@[j]@,
                ),
            forall|j: int| l <= j < 16 ==> #[trigger] state@[j] == old(state)@[j],
        decreases 16 - l,
    {
        let mut w = [0u32; 64];
        let mut i: usize = 0;
        while i < 16
            invariant
                i <= 16,
                l < 16,
                forall|j: int| 0 <= j < i ==> #[trigger] w@[j] == blocks@[l as int]@[j],
            decreases 16 - i,
        {
            w[i] = blocks[l][i];
            i += 1;
        }
        assert(w@.subrange(0, 16) =~= blocks@[l as int]@);
        expand_schedule(&mut w);
        let r = run_rounds(&state[l], &w);
        state[l] = r;
        l += 1;
    }
}

/// Sixteen compressions without feedback that share one expanded schedule.
pub fn compress16_with_schedule(state: &mut [[u32; 8]; 16], w: &[u32; 64])
    requires
        w@ == schedule(w@.subrange(0, 16)),
    ensures
        forall|l: int|
            0 <= l < 16 ==> #[trigger] final(state)@[l]@ == compress_rounds(
                old(state)@[l]@,
                w@.subrange(0, 16),
            ),
{
    let mut l: usize = 0;
    while l < 16
        invariant
            l <= 16,
            w@ == schedule(w@.subrange(0, 16)),
            forall|j: int|
                0 <= j < l ==> #[trigger] state@[j]@ == compress_rounds(
                    old(state)@[j]@,
                    w@.subrange(0, 16),
                ),
            forall|j: int| l <= j < 16 ==> #[trigger] state@[j] == old(state)@[j],
        decreases 16 - l,
    {
        let r = run_rounds(&state[l], w);
        state[l] = r;
        l += 1;
    }
}

} // verus!
