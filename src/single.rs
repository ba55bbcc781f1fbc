use vstd::prelude::*;
use crate::bytes::{
    decimal, fixed_digits, ones, ones_text, pow10, words_at, words_to_bytes, write_digits,
    lemma_bytes_words_bytes, lemma_decimal_split, lemma_decimal_two_digits, lemma_nonce_text, lemma_ones_below_pow10, lemma_ones_monotone,
    lemma_pow10_monotone,
};
use crate::message::{
    absorb, absorb_block_bytes, absorb_full_blocks, be64_bytes, padding, pack_top128, zeros,
    lemma_absorb_concat, lemma_absorb_words, lemma_final_block_digest, lemma_padding_single,
};
use crate::sha256::{compress, compress_block, compress16_without_feedback, initial_state};
use crate::{
    candidate_digest, candidate_nonce, in_keyspace, is_hit, lane_prefix,
    search_outcome, Solver, INNER_KEYS, MAX_PREFIX_LEN, PREFIX_SETS,
};

verus! {

/// How many filler ones the single-block strategy appends to a prefix of
/// `len` bytes: enough to close the block when fewer than 18 bytes (9 digits
/// and 9 bytes of padding) remain in it.
pub open spec fn single_filler(len: nat) -> nat {
    if len % 64 + 18 > 64 {
        (64 - len % 64) as nat
    } else {
        0
    }
}

/// The filler's contribution to every nonce.
pub open spec fn single_addend(len: nat) -> nat {
    ones(single_filler(len)) * 1_000_000_000
}

/// The single-block strategy represents a prefix when the filler's
/// contribution fits in 64 bits.
pub open spec fn single_accepts(len: nat) -> bool {
    single_addend(len) <= u64::MAX
}

/// A chaining state and final block condition a prefix for the
/// single-block search: the state has absorbed every block of the prefix and
/// its filler ones before the final block, and the final block holds the
/// rest of that text, a nine-byte window at `di` and the padding of a message
/// nine bytes longer than the text.
pub open spec fn single_conditioned(prefix: Seq<u8>, ps: Seq<u32>, block: Seq<u8>, di: int) -> bool {
    let t = prefix + ones_text(single_filler(prefix.len()));
    &&& prefix.len() < MAX_PREFIX_LEN
    &&& single_accepts(prefix.len())
    &&& 0 <= di <= 46
    &&& block.len() == 64
    &&& t.len() % 64 == di
    &&& ps == absorb(initial_state(), t.subrange(0, t.len() - di))
    &&& block.subrange(0, di) == t.subrange(t.len() - di, t.len() as int)
    &&& block.subrange(di + 9, 64) == padding((t.len() + 9) as nat)
}

/// Solves with one compression per candidate: the nine nonce digits and the
/// padding share the final block.
pub struct SingleBlockSolver16Way {
    /// Chaining state after every block before the final one.
    pub(crate) prefix_state: [u32; 8],
    /// The final block: prefix tail, nine digit bytes, padding.
    pub(crate) message: [u32; 16],
    /// Offset of the nine digit bytes in the final block.
    pub(crate) digit_index: usize,
    pub(crate) nonce_addend: u64,
    pub(crate) prefix: Ghost<Seq<u8>>,
}

impl SingleBlockSolver16Way {
    /// What the consistency of a single-block solver guarantees of its fields.
    pub(crate) proof fn lemma_field_bounds(&self)
        requires
            self.wf(),
        ensures
            self.digit_index <= 46,
            self.prefix@.len() < MAX_PREFIX_LEN,
            single_accepts(self.prefix@.len()),
            self.nonce_addend == single_addend(self.prefix@.len()),
            self.nonce_addend + 1_000_000_000 <= u64::MAX,
            self.prefix() == self.prefix@,
            self.fresh() ==> words_to_bytes(self.message@).subrange(
                self.digit_index as int,
                self.digit_index + 9,
            ) == zeros(9),
            single_conditioned(
                self.prefix@,
                self.prefix_state@,
                words_to_bytes(self.message@),
                self.digit_index as int,
            ),
    {
    }

    /// The nine bytes of the final block's digit window.
    pub closed spec fn window(&self) -> Seq<u8> {
        words_to_bytes(self.message@).subrange(self.digit_index as int, self.digit_index + 9)
    }

    /// The chaining state the search starts every candidate from.
    pub closed spec fn chaining_state(&self) -> Seq<u32> {
        self.prefix_state@
    }

    /// Conditioning: the chaining state is the prefix and its filler ones
    /// hashed block by block, and the filler's ones are the nonce's leading
    /// digits, worth `ones * 10^9`.
    pub proof fn lemma_conditioning(&self)
        requires
            self.wf(),
        ensures
            self.chaining_state() == crate::message::absorb(
                initial_state(),
                self.prefix() + ones_text(single_filler(self.prefix().len())),
            ),
            self.addend() == ones(single_filler(self.prefix().len())) * 1_000_000_000,
            single_filler(self.prefix().len()) >= 1 ==> crate::bytes::decimal(
                ones(single_filler(self.prefix().len())),
            ) == ones_text(single_filler(self.prefix().len())),
    {
        let t = self.text();
        crate::message::lemma_absorb_full_part(initial_state(), t);
        if single_filler(self.prefix@.len()) >= 1 {
            crate::bytes::lemma_decimal_ones(single_filler(self.prefix@.len()));
        }
    }

    /// The prefix followed by the filler ones.
    pub closed spec fn text(&self) -> Seq<u8> {
        self.prefix@ + ones_text(single_filler(self.prefix@.len()))
    }

    proof fn lemma_lane_digest(&self, blk: Seq<u32>, set: int, inner: int, lane: int)
        requires
            self.wf(),
            in_keyspace(set, inner, lane),
            blk.len() == 16,
            words_to_bytes(blk) == words_to_bytes(self.message@).subrange(
                0,
                self.digit_index as int,
            ) + fixed_digits(lane_prefix(set, lane) as nat, 2) + fixed_digits(inner as nat, 7)
                + words_to_bytes(self.message@).subrange(self.digit_index + 9, 64),
        ensures
            compress(self.prefix_state@, blk) == candidate_digest(
                self.prefix@,
                self.nonce_addend as nat,
                false,
                set,
                inner,
                lane,
            ),
    {
        let np = lane_prefix(set, lane) as nat;
        let w = fixed_digits(np, 2) + fixed_digits(inner as nat, 7);
        let b = words_to_bytes(self.message@);
        let di = self.digit_index as int;
        let k = single_filler(self.prefix@.len());
        assert(words_to_bytes(blk) =~= b.subrange(0, di) + w + b.subrange(di + 9, 64));
        lemma_final_block_digest(self.prefix_state@, self.text(), di, b, w);
        lemma_absorb_words(self.prefix_state@, blk);
        lemma_nonce_text(k, np, inner as nat);
        assert(candidate_nonce(self.nonce_addend as nat, false, set, inner, lane) == ones(k)
            * 1_000_000_000 + np * 10_000_000 + inner);
        assert(self.text() + w =~= self.prefix@ + (ones_text(k) + fixed_digits(np, 2)
            + fixed_digits(inner as nat, 7)));
    }
}

/// The filler contribution fits in 64 bits only for at most eleven ones.
proof fn lemma_addend_bound(k: nat)
    requires
        ones(k) * 1_000_000_000 <= u64::MAX,
    ensures
        ones(k) * 1_000_000_000 + 1_000_000_000 <= u64::MAX,
{
    reveal_with_fuel(ones, 13);
    if k >= 12 {
        lemma_ones_monotone(12, k);
        assert(ones(12) == 111_111_111_111);
    } else {
        lemma_ones_monotone(k, 11);
        assert(ones(11) == 11_111_111_111);
    }
}

/// The block that closes a prefix's last partial block with ASCII ones, and
/// the decimal value of those ones.
fn filler_block(prefix: &[u8], off: usize) -> (r: ([u8; 64], u64))
    requires
        off <= prefix@.len(),
        47 <= prefix@.len() - off < 64,
    ensures
        r.0@ == prefix@.subrange(off as int, prefix@.len() as int) + ones_text(
            (64 - (prefix@.len() - off)) as nat,
        ),
        r.1 == ones((64 - (prefix@.len() - off)) as nat),
{
    let n = prefix.len();
    let tail = n - off;
    let mut block = [0u8; 64];
    let mut i: usize = 0;
    while i < tail
        invariant
            i <= tail,
            tail == n - off,
            47 <= tail < 64,
            n == prefix@.len(),
            forall|j: int| 0 <= j < i ==> #[trigger] block@[j] == prefix@[off + j],
        decreases tail - i,
    {
        block[i] = prefix[off + i];
        i += 1;
    }
    let mut ones_val: u64 = 0;
    assert(pow10(0) == 1 && ones(0) == 0);
    while i < 64
        invariant
            tail <= i <= 64,
            tail == n - off,
            47 <= tail < 64,
            n == prefix@.len(),
            ones_val == ones((i - tail) as nat),
            forall|j: int| 0 <= j < tail ==> #[trigger] block@[j] == prefix@[off + j],
            forall|j: int| tail <= j < i ==> #[trigger] block@[j] == 49u8,
        decreases 64 - i,
    {
        proof {
            lemma_ones_below_pow10((i - tail) as nat);
            lemma_pow10_monotone((i - tail) as nat, 16);
            reveal_with_fuel(pow10, 17);
        }
        ones_val = ones_val * 10 + 1;
        block[i] = 49u8;
        i += 1;
    }
    assert(block@ =~= prefix@.subrange(off as int, n as int) + ones_text((64 - tail) as nat));
    (block, ones_val)
}

/// Writes the eight big-endian bytes of `bits` at the end of a block.
fn put_length(mb: &mut [u8; 64], bits: u64)
    ensures
        final(mb)@.subrange(0, 56) == old(mb)@.subrange(0, 56),
        final(mb)@.subrange(56, 64) == be64_bytes(bits),
{
    let mut i: usize = 0;
    while i < 8
        invariant
            i <= 8,
            forall|j: int| 0 <= j < 56 ==> #[trigger] mb@[j] == old(mb)@[j],
            forall|j: int| 0 <= j < i ==> #[trigger] mb@[56 + j] == be64_bytes(bits)[j],
        decreases 8 - i,
    {
        mb[56 + i] = ((bits >> (56 - 8 * i) as u64) & 0xff) as u8;
        i += 1;
    }
    assert(mb@.subrange(0, 56) =~= old(mb)@.subrange(0, 56));
    assert forall|j: int| 0 <= j < 8 implies #[trigger] mb@.subrange(56, 64)[j] == be64_bytes(
        bits,
    )[j] by {
        assert(mb@[56 + j] == be64_bytes(bits)[j]);
    }
    assert(mb@.subrange(56, 64) =~= be64_bytes(bits));
}

/// The final block: `di` bytes of the prefix from `off`, nine zero digit
/// bytes, `0x80`, zeros and the bit length.
fn final_block(prefix: &[u8], off: usize, di: usize, bits: u64) -> (r: [u32; 16])
    requires
        di <= 46,
        off + di <= prefix@.len(),
    ensures
        words_to_bytes(r@).len() == 64,
        words_to_bytes(r@).subrange(0, di as int) == prefix@.subrange(off as int, off + di),
        words_to_bytes(r@).subrange(di + 9, 64) == seq![0x80u8] + zeros((46 - di) as nat)
            + be64_bytes(bits),
        words_to_bytes(r@).subrange(di as int, di + 9) == zeros(9),
{
    let n = prefix.len();
    let mut mb = [0u8; 64];
    let mut i: usize = 0;
    while i < di
        invariant
            i <= di,
            di <= 46,
            n == prefix@.len(),
            off + di <= n,
            forall|j: int| 0 <= j < i ==> #[trigger] mb@[j] == prefix@[off + j],
            forall|j: int| di <= j < 64 ==> #[trigger] mb@[j] == 0u8,
        decreases di - i,
    {
        mb[i] = prefix[off + i];
        i += 1;
    }
    mb[di + 9] = 0x80;
    let ghost head = mb@;
    put_length(&mut mb, bits);
    proof {
        assert forall|j: int| 0 <= j < 56 implies #[trigger] mb@[j] == head[j] by {
            assert(mb@.subrange(0, 56)[j] == head.subrange(0, 56)[j]);
        }
        assert(mb@.subrange(di + 9, 56) =~= head.subrange(di + 9, 56));
        assert(head.subrange(di + 9, 56) =~= seq![0x80u8] + zeros((46 - di) as nat));
        assert(mb@.subrange(di + 9, 64) =~= mb@.subrange(di + 9, 56) + mb@.subrange(56, 64));
        assert(mb@.subrange(0, di as int) =~= head.subrange(0, di as int));
        assert(head.subrange(0, di as int) =~= prefix@.subrange(off as int, off + di));
        assert(mb@.subrange(di as int, di + 9) =~= zeros(9));
    }
    let message = words_at(&mb, 0);
    proof {
        assert(mb@.subrange(0, 64) =~= mb@);
        lemma_bytes_words_bytes(mb@);
    }
    message
}

impl Solver for SingleBlockSolver16Way {
    type Ctx = ();

    closed spec fn prefix(&self) -> Seq<u8> {
        self.prefix@
    }

    closed spec fn addend(&self) -> nat {
        self.nonce_addend as nat
    }

    closed spec fn wf(&self) -> bool {
        &&& single_conditioned(
            self.prefix@,
            self.prefix_state@,
            words_to_bytes(self.message@),
            self.digit_index as int,
        )
        &&& self.nonce_addend == single_addend(self.prefix@.len())
        &&& self.nonce_addend + 1_000_000_000 <= u64::MAX
    }

    open spec fn found(&self, target_top: u32, r: Option<(u64, u128)>) -> bool {
        search_outcome(self.prefix(), self.addend(), false, target_top, r)
    }

    open spec fn fresh(&self) -> bool {
        self.window() == zeros(9)
    }

    open spec fn stamped(&self, nonce: u64) -> bool {
        self.window() == decimal((nonce - self.addend()) as nat)
    }

    open spec fn accepts(prefix: Seq<u8>) -> bool {
        single_accepts(prefix.len())
    }

    open spec fn addend_for(prefix: Seq<u8>) -> nat {
        single_addend(prefix.len())
    }

    fn new(_ctx: (), prefix: &[u8]) -> (r: Option<Self>) {
        let (mut state, nb) = absorb_full_blocks(prefix);
        let n = prefix.len();
        let off = 64 * nb;
        proof {
            vstd::arithmetic::div_mod::lemma_fundamental_div_mod(n as int, 64);
        }
        let tail = n - off;
        assert(tail == n % 64);
        let ghost k = single_filler(n as nat);
        let ghost t = prefix@ + ones_text(k);
        let mut nonce_addend: u64 = 0;
        let mut absorbed: u64 = off as u64;
        let mut di: usize = tail;
        if tail + 18 > 64 {
            let (block, ones_val) = filler_block(prefix, off);
            assert(k == 64 - tail);
            match ones_val.checked_mul(1_000_000_000) {
                None => {
                    return None;
                },
                Some(a) => {
                    nonce_addend = a;
                },
            }
            proof {
                assert(block@ =~= t.subrange(off as int, off + 64));
                lemma_absorb_concat(initial_state(), t.subrange(0, off as int), block@);
                assert(t.subrange(0, off as int) + block@ =~= t.subrange(0, off + 64));
                assert(t.subrange(0, off as int) =~= prefix@.subrange(0, off as int));
                lemma_addend_bound(k);
            }
            absorb_block_bytes(&mut state, &block);
            absorbed = off as u64 + 64;
            di = 0;
        } else {
            assert(k == 0);
            assert(ones(0) == 0);
            assert(t =~= prefix@);
        }
        let ghost tl = t.len();
        assert(tl == absorbed + di);
        let bits: u64 = (absorbed + di as u64 + 9) * 8;
        let message = final_block(prefix, off, di, bits);
        proof {
            lemma_padding_single(tl as nat, di as nat);
            let b = words_to_bytes(message@);
            assert(b.subrange(di + 9, 64) =~= padding((tl + 9) as nat));
            assert(b.subrange(0, di as int) =~= t.subrange(tl - di, tl as int));
        }
        Some(SingleBlockSolver16Way {
            prefix_state: state,
            message,
            digit_index: di,
            nonce_addend,
            prefix: Ghost(prefix@),
        })
    }

    fn solve(&mut self, target: [u32; 4]) -> (r: Option<(u64, u128)>) {
        let di = self.digit_index;
        let ghost prefix = self.prefix@;
        let ghost addend = self.nonce_addend as nat;
        let t0 = target[0];
        let mut set: u64 = 0;
        while set < PREFIX_SETS
            invariant
                self.wf(),
                self.prefix@ == prefix,
                self.nonce_addend as nat == addend,
                self.digit_index == di,
                prefix == old(self).prefix@,
                addend == old(self).nonce_addend,
                t0 == target[0],
                set <= PREFIX_SETS,
                forall|s2: int, i2: int, l2: int|
                    in_keyspace(s2, i2, l2) && s2 < set ==> !#[trigger] is_hit(prefix, addend, false, t0,
                        s2,
                        i2,
                        l2,
                    ),
            decreases PREFIX_SETS - set,
        {
            let mut inner: u64 = 0;
            while inner < INNER_KEYS
                invariant
                    self.wf(),
                    self.prefix@ == prefix,
                    self.nonce_addend as nat == addend,
                    self.digit_index == di,
                    prefix == old(self).prefix@,
                    addend == old(self).nonce_addend,
                    t0 == target[0],
                    set < PREFIX_SETS,
                    inner <= INNER_KEYS,
                    forall|s2: int, i2: int, l2: int|
                        in_keyspace(s2, i2, l2) && (s2 < set || (s2 == set && i2 < inner))
                            ==> !#[trigger] is_hit(prefix, addend, false, t0, s2, i2, l2),
                decreases INNER_KEYS - inner,
            {
                let ghost before = words_to_bytes(self.message@);
                write_digits(&mut self.message, di + 2, inner, 7);
                let ghost mb = words_to_bytes(self.message@);
                assert(mb.subrange(0, di as int) =~= before.subrange(0, di as int));
                assert(mb.subrange(di + 9, 64) =~= before.subrange(di + 9, 64));
                assert(mb.subrange(di + 2, 64) =~= fixed_digits(inner as nat, 7) + mb.subrange(
                    di + 9,
                    64,
                ));
                let mut blocks = [[0u32; 16]; 16];
                let mut lane: usize = 0;
                while lane < 16
                    invariant
                        lane <= 16,
                        di <= 46,
                        set < PREFIX_SETS,
                        mb == words_to_bytes(self.message@),
                        mb.subrange(di + 2, 64) == fixed_digits(inner as nat, 7) + mb.subrange(
                            di + 9,
                            64,
                        ),
                        forall|l: int|
                            0 <= l < lane ==> words_to_bytes(#[trigger] blocks@[l]@) == mb.subrange(
                                0,
                                di as int,
                            ) + fixed_digits(lane_prefix(set as int, l) as nat, 2) + fixed_digits(
                                inner as nat,
                                7,
                            ) + mb.subrange(di + 9, 64),
                    decreases 16 - lane,
                {
                    let mut blk = self.message;
                    write_digits(&mut blk, di, 10 + 16 * set + lane as u64, 2);
                    assert(words_to_bytes(blk@) =~= mb.subrange(0, di as int) + fixed_digits(
                        lane_prefix(set as int, lane as int) as nat,
                        2,
                    ) + fixed_digits(inner as nat, 7) + mb.subrange(di + 9, 64));
                    blocks[lane] = blk;
                    lane += 1;
                }
                let mut state = [[0u32; 8]; 16];
                let mut lane: usize = 0;
                while lane < 16
                    invariant
                        lane <= 16,
                        forall|l: int| 0 <= l < lane ==> #[trigger] state@[l] == self.prefix_state,
                    decreases 16 - lane,
                {
                    state[lane] = self.prefix_state;
                    lane += 1;
                }
                compress16_without_feedback(&mut state, &blocks);
                let mut lane: usize = 0;
                while lane < 16
                    invariant
                        self.wf(),
                        self.prefix@ == prefix,
                        self.nonce_addend as nat == addend,
                        self.digit_index == di,
                        prefix == old(self).prefix@,
                        addend == old(self).nonce_addend,
                        t0 == target[0],
                        set < PREFIX_SETS,
                        inner < INNER_KEYS,
                        lane <= 16,
                        mb == words_to_bytes(self.message@),
                        mb.subrange(di + 2, 64) == fixed_digits(inner as nat, 7) + mb.subrange(
                            di + 9,
                            64,
                        ),
                        forall|l: int|
                            0 <= l < 16 ==> words_to_bytes(#[trigger] blocks@[l]@) == mb.subrange(
                                0,
                                di as int,
                            ) + fixed_digits(lane_prefix(set as int, l) as nat, 2) + fixed_digits(
                                inner as nat,
                                7,
                            ) + mb.subrange(di + 9, 64),
                        forall|l: int|
                            0 <= l < 16 ==> #[trigger] state@[l]@ == crate::sha256::compress_rounds(
                                self.prefix_state@,
                                blocks@[l]@,
                            ),
                        forall|s2: int, i2: int, l2: int|
                            in_keyspace(s2, i2, l2) && (s2 < set || (s2 == set && i2 < inner) || (
                            s2 == set && i2 == inner && l2 < lane)) ==> !#[trigger] is_hit(prefix, addend, false, t0,
                                s2,
                                i2,
                                l2,
                            ),
                    decreases 16 - lane,
                {
                    let a = self.prefix_state[0].wrapping_add(state[lane][0]);
                    proof {
                        self.lemma_lane_digest(blocks@[lane as int]@, set as int, inner as int, lane as int);
                        assert(a == compress(self.prefix_state@, blocks@[lane as int]@)[0]);
                    }
                    if a > t0 {
                        let np = 10 + 16 * set + lane as u64;
                        write_digits(&mut self.message, di, np, 2);
                        proof {
                            assert(words_to_bytes(self.message@) =~= words_to_bytes(
                                blocks@[lane as int]@,
                            ));
                            crate::bytes::lemma_words_bytes_words(self.message@);
                            crate::bytes::lemma_words_bytes_words(blocks@[lane as int]@);
                            assert(self.message@ == blocks@[lane as int]@);
                            assert(words_to_bytes(self.message@).subrange(0, di as int) =~= mb.subrange(0, di as int));
                            assert(words_to_bytes(self.message@).subrange(di + 9, 64) =~= mb.subrange(di + 9, 64));
                        }
                        let mut fin = self.prefix_state;
                        compress_block(&mut fin, &self.message);
                        let nonce = self.nonce_addend + np * 10_000_000 + inner;
                        let d = pack_top128(&fin);
                        proof {
                            reveal_with_fuel(pow10, 8);
                            lemma_decimal_split(np as nat, inner as nat, 7);
                            lemma_decimal_two_digits(np as nat);
                            assert(self.window() =~= fixed_digits(np as nat, 2) + fixed_digits(
                                inner as nat,
                                7,
                            ));
                        }
                        assert(is_hit(prefix, addend, false, t0, set as int, inner as int, lane as int));
                        return Some((nonce, d));
                    }
                    lane += 1;
                }
                inner += 1;
            }
            set += 1;
        }
        None
    }
}

} // verus!
