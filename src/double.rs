use vstd::prelude::*;
use crate::bytes::{
    bytes_to_words, decimal, digits_value, fixed_digits, ones, ones_text, pow10, words_at,
    words_to_bytes, write_digits, write_digits_reversed, lemma_bytes_words_bytes,
    lemma_decimal_split, lemma_decimal_two_digits, lemma_digits_value_text,
    lemma_fixed_digits_text, lemma_length_words, lemma_nonce_text, lemma_ones_below_pow10,
    lemma_pow10_monotone, lemma_pow10_positive, lemma_words_bytes_words,
};
use crate::message::{
    absorb, absorb_full_blocks, be64_bytes, pack_top128, zeros, lemma_absorb_one,
    lemma_absorb_words, lemma_two_block_digest,
};
use crate::sha256::{
    compress, compress_block, compress_rounds, compress16_with_schedule,
    compress16_without_feedback, expand_schedule, initial_state, schedule,
};
use crate::{
    search_outcome,
    candidate_digest, candidate_nonce, in_keyspace, is_hit, lane_prefix, Solver, INNER_KEYS,
    MAX_PREFIX_LEN, PREFIX_SETS,
};

verus! {

/// Offset of the nine digit bytes in the first of the two final blocks.
pub const DIGIT_IDX: usize = 54;

/// The double-block strategy represents a prefix whose last partial block
/// holds 47 to 54 bytes.
pub open spec fn double_accepts(len: nat) -> bool {
    47 <= len % 64 <= 54
}

/// How many filler ones bring the last partial block to 54 bytes.
pub open spec fn double_filler(len: nat) -> nat {
    (54 - len % 64) as nat
}

/// The filler's contribution to every nonce.
pub open spec fn double_addend(len: nat) -> nat {
    if double_accepts(len) {
        ones(double_filler(len)) * 1_000_000_000
    } else {
        0
    }
}

/// The words of the last block of the padded message: zeros, then the bit
/// length of a `len`-byte message.
pub open spec fn terminal_words(len: nat) -> Seq<u32> {
    bytes_to_words(zeros(56) + be64_bytes((8 * len) as u64))
}

/// Solves with two compressions per candidate: the nine nonce digits close
/// the first final block and the padding fills the second.
pub struct DoubleBlockSolver16Way {
    /// Chaining state after every block before the two final ones.
    pub(crate) prefix_state: [u32; 8],
    /// The first final block: prefix tail and filler, nine digit bytes, `0x80`.
    pub(crate) message: [u32; 16],
    /// The expanded schedule of the second final block.
    pub(crate) terminal_message_schedule: [u32; 64],
    pub(crate) nonce_addend: u64,
    pub(crate) prefix: Ghost<Seq<u8>>,
}

impl DoubleBlockSolver16Way {
    /// The nine bytes of the first final block's digit window.
    pub closed spec fn window(&self) -> Seq<u8> {
        words_to_bytes(self.message@).subrange(54, 63)
    }

    /// The chaining state the search starts every candidate from.
    pub closed spec fn chaining_state(&self) -> Seq<u32> {
        self.prefix_state@
    }

    /// Conditioning: the chaining state is the prefix and its filler ones
    /// hashed block by block, and the filler's ones are the nonce's leading
    /// digits, worth `ones * 10^9`.
    pub proof fn lemma_conditioning(&self)
        requires
            self.wf(),
        ensures
            self.chaining_state() == crate::message::absorb(
                initial_state(),
                self.prefix() + ones_text(double_filler(self.prefix().len())),
            ),
            self.addend() == ones(double_filler(self.prefix().len())) * 1_000_000_000,
            double_filler(self.prefix().len()) >= 1 ==> crate::bytes::decimal(
                ones(double_filler(self.prefix().len())),
            ) == ones_text(double_filler(self.prefix().len())),
    {
        let t = self.text();
        crate::message::lemma_absorb_full_part(initial_state(), t);
        if double_filler(self.prefix@.len()) >= 1 {
            crate::bytes::lemma_decimal_ones(double_filler(self.prefix@.len()));
        }
    }

    /// The prefix followed by the filler ones.
    pub closed spec fn text(&self) -> Seq<u8> {
        self.prefix@ + ones_text(double_filler(self.prefix@.len()))
    }

    proof fn lemma_lane_digest(&self, blk: Seq<u32>, set: int, inner: int, lane: int)
        requires
            self.wf(),
            in_keyspace(set, inner, lane),
            blk.len() == 16,
            words_to_bytes(blk) == words_to_bytes(self.message@).subrange(0, 54) + fixed_digits(
                lane_prefix(set, lane) as nat,
                2,
            ) + fixed_digits(inner as nat, 7).reverse() + words_to_bytes(self.message@).subrange(
                63,
                64,
            ),
        ensures
            compress(compress(self.prefix_state@, blk), self.terminal_message_schedule@.subrange(0, 16))
                == candidate_digest(self.prefix@, self.nonce_addend as nat, true, set, inner, lane),
    {
        let np = lane_prefix(set, lane) as nat;
        let rev = fixed_digits(inner as nat, 7).reverse();
        let rv = digits_value(rev);
        lemma_fixed_digits_text(inner as nat, 7);
        lemma_digits_value_text(rev);
        reveal_with_fuel(pow10, 8);
        let w = fixed_digits(np, 2) + rev;
        let b = words_to_bytes(self.message@);
        let t = self.text();
        let k = double_filler(self.prefix@.len());
        let second = zeros(56) + be64_bytes((8 * (t.len() + 9)) as u64);
        assert(b.subrange(63, 64) =~= seq![0x80u8]);
        assert(words_to_bytes(blk) =~= b.subrange(0, 54) + w + seq![0x80u8]);
        lemma_two_block_digest(self.prefix_state@, t, b, w);
        lemma_absorb_words(self.prefix_state@, blk);
        assert(self.terminal_message_schedule@.subrange(0, 16) =~= terminal_words(
            (t.len() + 9) as nat,
        ));
        lemma_absorb_one(compress(self.prefix_state@, blk), second);
        lemma_nonce_text(k, np, rv);
        assert(candidate_nonce(self.nonce_addend as nat, true, set, inner, lane) == ones(k)
            * 1_000_000_000 + np * 10_000_000 + rv);
        assert(t + w =~= self.prefix@ + (ones_text(k) + fixed_digits(np, 2) + fixed_digits(rv, 7)));
    }
}

/// The value of the decimal number written with `count` ones.
fn ones_value(count: usize) -> (r: u64)
    requires
        count <= 17,
    ensures
        r == ones(count as nat),
{
    let mut v: u64 = 0;
    let mut i: usize = 0;
    assert(ones(0) == 0);
    while i < count
        invariant
            i <= count <= 17,
            v == ones(i as nat),
        decreases count - i,
    {
        proof {
            lemma_ones_below_pow10(i as nat);
            lemma_pow10_monotone(i as nat, 16);
            reveal_with_fuel(pow10, 17);
        }
        v = v * 10 + 1;
        i += 1;
    }
    v
}

/// The first final block: the prefix tail from `off`, filler ones up to byte
/// 54, nine zero digit bytes and `0x80`.
fn first_final_block(prefix: &[u8], off: usize) -> (r: [u32; 16])
    requires
        off <= prefix@.len(),
        47 <= prefix@.len() - off <= 54,
    ensures
        words_to_bytes(r@).len() == 64,
        words_to_bytes(r@).subrange(0, 54) == prefix@.subrange(off as int, prefix@.len() as int)
            + ones_text((54 - (prefix@.len() - off)) as nat),
        words_to_bytes(r@)[63] == 0x80u8,
        words_to_bytes(r@).subrange(54, 63) == zeros(9),
{
    let n = prefix.len();
    let tail = n - off;
    let mut mb = [0u8; 64];
    let mut i: usize = 0;
    while i < tail
        invariant
            i <= tail,
            tail == n - off,
            47 <= tail <= 54,
            n == prefix@.len(),
            forall|j: int| 0 <= j < i ==> #[trigger] mb@[j] == prefix@[off + j],
            forall|j: int| 54 <= j < 64 ==> #[trigger] mb@[j] == 0u8,
        decreases tail - i,
    {
        mb[i] = prefix[off + i];
        i += 1;
    }
    while i < 54
        invariant
            tail <= i <= 54,
            forall|j: int| 54 <= j < 64 ==> #[trigger] mb@[j] == 0u8,
            forall|j: int| 0 <= j < tail ==> #[trigger] mb@[j] == prefix@[off + j],
            forall|j: int| tail <= j < i ==> #[trigger] mb@[j] == 49u8,
        decreases 54 - i,
    {
        mb[i] = 49u8;
        i += 1;
    }
    mb[63] = 0x80;
    let ghost want = prefix@.subrange(off as int, n as int) + ones_text((54 - tail) as nat);
    assert forall|j: int| 0 <= j < 54 implies #[trigger] mb@.subrange(0, 54)[j] == want[j] by {
        if j < tail {
            assert(mb@[j] == prefix@[off + j]);
        }
    }
    assert(mb@.subrange(0, 54) =~= want);
    assert(mb@.subrange(54, 63) =~= zeros(9));
    let message = words_at(&mb, 0);
    proof {
        assert(mb@.subrange(0, 64) =~= mb@);
        lemma_bytes_words_bytes(mb@);
    }
    message
}

/// The expanded schedule of the last padding block of a `len`-byte message.
fn terminal_schedule(bits: u64) -> (r: [u32; 64])
    ensures
        r@ == schedule(bytes_to_words(zeros(56) + be64_bytes(bits))),
{
    let mut w = [0u32; 64];
    w[14] = (bits >> 32u64) as u32;
    w[15] = bits as u32;
    proof {
        lemma_length_words(bits);
        let tw = bytes_to_words(zeros(56) + be64_bytes(bits));
        assert forall|i: int| 0 <= i < 16 implies #[trigger] w@.subrange(0, 16)[i] == tw[i] by {
            assert((zeros(56) + be64_bytes(bits))[4 * i] == (zeros(56) + be64_bytes(bits))[4 * i]);
        }
        assert(w@.subrange(0, 16) =~= tw);
    }
    expand_schedule(&mut w);
    w
}

/// The value of the seven zero-padded digits of `inner` read in reverse.
fn reversed_value(inner: u64) -> (r: u64)
    ensures
        r == digits_value(fixed_digits(inner as nat, 7).reverse()),
        r < 10_000_000,
{
    let ghost rev = fixed_digits(inner as nat, 7).reverse();
    let mut suffix: u64 = 0;
    let mut key = inner;
    let mut i: usize = 0;
    assert(pow10(0) == 1);
    assert(inner as nat / 1 == inner as nat);
    assert(rev.subrange(0, 0) =~= Seq::<u8>::empty());
    while i < 7
        invariant
            i <= 7,
            rev == fixed_digits(inner as nat, 7).reverse(),
            key as nat == inner as nat / pow10(i as nat),
            suffix == digits_value(rev.subrange(0, i as int)),
            suffix < pow10(i as nat),
        decreases 7 - i,
    {
        proof {
            let e = i as nat;
            lemma_pow10_positive(e);
            lemma_pow10_monotone(e, 6);
            reveal_with_fuel(pow10, 8);
            vstd::arithmetic::div_mod::lemma_div_denominator(inner as int, pow10(e) as int, 10);
            assert(pow10(e + 1) == 10 * pow10(e));
            let s1 = rev.subrange(0, i + 1);
            assert(s1.drop_last() =~= rev.subrange(0, i as int));
            assert(s1.last() == rev[i as int]);
            assert(rev[i as int] == fixed_digits(inner as nat, 7)[6 - i]);
            assert((6 - (6 - i)) as nat == e);
        }
        suffix = suffix * 10 + key % 10;
        key = key / 10;
        i += 1;
    }
    assert(rev.subrange(0, 7) =~= rev);
    proof {
        reveal_with_fuel(pow10, 8);
    }
    suffix
}

impl Solver for DoubleBlockSolver16Way {
    type Ctx = ();

    closed spec fn prefix(&self) -> Seq<u8> {
        self.prefix@
    }

    closed spec fn addend(&self) -> nat {
        self.nonce_addend as nat
    }

    closed spec fn wf(&self) -> bool {
        let t = self.text();
        let b = words_to_bytes(self.message@);
        &&& self.prefix@.len() < MAX_PREFIX_LEN
        &&& double_accepts(self.prefix@.len())
        &&& self.nonce_addend == double_addend(self.prefix@.len())
        &&& self.nonce_addend + 1_000_000_000 <= u64::MAX
        &&& t.len() % 64 == 54
        &&& self.prefix_state@ == absorb(initial_state(), t.subrange(0, t.len() - 54))
        &&& b.subrange(0, 54) == t.subrange(t.len() - 54, t.len() as int)
        &&& b[63] == 0x80u8
        &&& self.terminal_message_schedule@ == schedule(terminal_words((t.len() + 9) as nat))
    }

    open spec fn found(&self, target_top: u32, r: Option<(u64, u128)>) -> bool {
        search_outcome(self.prefix(), self.addend(), true, target_top, r)
    }

    open spec fn fresh(&self) -> bool {
        self.window() == zeros(9)
    }

    open spec fn stamped(&self, nonce: u64) -> bool {
        self.window() == decimal((nonce - self.addend()) as nat)
    }

    open spec fn accepts(prefix: Seq<u8>) -> bool {
        double_accepts(prefix.len())
    }

    open spec fn addend_for(prefix: Seq<u8>) -> nat {
        double_addend(prefix.len())
    }

    fn new(_ctx: (), prefix: &[u8]) -> (r: Option<Self>) {
        let (state, nb) = absorb_full_blocks(prefix);
        let n = prefix.len();
        let off = 64 * nb;
        proof {
            vstd::arithmetic::div_mod::lemma_fundamental_div_mod(n as int, 64);
        }
        let tail = n - off;
        assert(tail == n % 64);
        if tail < 47 || tail > DIGIT_IDX {
            return None;
        }
        let ghost k = double_filler(n as nat);
        let ghost t = prefix@ + ones_text(k);
        let message = first_final_block(prefix, off);
        let ones_val = ones_value(DIGIT_IDX - tail);
        proof {
            lemma_ones_below_pow10(k);
            lemma_pow10_monotone(k, 7);
            reveal_with_fuel(pow10, 8);
        }
        let nonce_addend = ones_val * 1_000_000_000;
        let bits: u64 = (off as u64 + 63) * 8;
        let terminal_message_schedule = terminal_schedule(bits);
        proof {
            assert(t.len() == off + 54);
            assert(t.subrange(0, t.len() - 54) =~= prefix@.subrange(0, off as int));
            assert(t.subrange(t.len() - 54, t.len() as int) =~= prefix@.subrange(
                off as int,
                n as int,
            ) + ones_text(k));
        }
        Some(DoubleBlockSolver16Way {
            prefix_state: state,
            message,
            terminal_message_schedule,
            nonce_addend,
            prefix: Ghost(prefix@),
        })
    }

    #[verifier::rlimit(60)]
    fn solve(&mut self, target: [u32; 4]) -> (r: Option<(u64, u128)>) {
        let ghost prefix = self.prefix@;
        let ghost addend = self.nonce_addend as nat;
        let ghost term = self.terminal_message_schedule@.subrange(0, 16);
        proof {
            assert(schedule(term) == self.terminal_message_schedule@) by {
                let tw = terminal_words((self.text().len() + 9) as nat);
                assert(schedule(tw).subrange(0, 16) =~= tw);
            }
        }
        let t0 = target[0];
        let mut set: u64 = 0;
        while set < PREFIX_SETS
            invariant
                self.wf(),
                self.prefix@ == prefix,
                self.nonce_addend as nat == addend,
                prefix == old(self).prefix@,
                addend == old(self).nonce_addend,
                self.terminal_message_schedule@ == schedule(term),
                term == self.terminal_message_schedule@.subrange(0, 16),
                t0 == target[0],
                set <= PREFIX_SETS,
                forall|s2: int, i2: int, l2: int|
                    in_keyspace(s2, i2, l2) && s2 < set ==> !#[trigger] is_hit(prefix, addend, true, t0,
                        s2,
                        i2,
                        l2,
                    ),
            decreases PREFIX_SETS - set,
        {
            let mut inner: u64 = 0;
            while inner < INNER_KEYS
                invariant
                    self.wf(),
                    self.prefix@ == prefix,
                    self.nonce_addend as nat == addend,
                    prefix == old(self).prefix@,
                    addend == old(self).nonce_addend,
                    self.terminal_message_schedule@ == schedule(term),
                    term == self.terminal_message_schedule@.subrange(0, 16),
                    t0 == target[0],
                    set < PREFIX_SETS,
                    inner <= INNER_KEYS,
                    forall|s2: int, i2: int, l2: int|
                        in_keyspace(s2, i2, l2) && (s2 < set || (s2 == set && i2 < inner))
                            ==> !#[trigger] is_hit(prefix, addend, true, t0, s2, i2, l2),
                decreases INNER_KEYS - inner,
            {
                let ghost before = words_to_bytes(self.message@);
                write_digits_reversed(&mut self.message, DIGIT_IDX + 2, inner, 7);
                let ghost mb = words_to_bytes(self.message@);
                assert(mb.subrange(0, 54) =~= before.subrange(0, 54));
                assert(mb[63] == before.subrange(63, 64)[0]);
                assert(mb.subrange(56, 64) =~= fixed_digits(inner as nat, 7).reverse() + mb.subrange(63, 64));
                let mut blocks = [[0u32; 16]; 16];
                let mut lane: usize = 0;
                while lane < 16
                    invariant
                        lane <= 16,
                        set < PREFIX_SETS,
                        mb == words_to_bytes(self.message@),
                        mb.subrange(56, 64) == fixed_digits(inner as nat, 7).reverse() + mb.subrange(63, 64),
                        forall|l: int|
                            0 <= l < lane ==> words_to_bytes(#[trigger] blocks@[l]@) == mb.subrange(
                                0,
                                54,
                            ) + fixed_digits(lane_prefix(set as int, l) as nat, 2) + fixed_digits(inner as nat, 7).reverse() + mb.subrange(63, 64),
                    decreases 16 - lane,
                {
                    let mut blk = self.message;
                    write_digits(&mut blk, DIGIT_IDX, 10 + 16 * set + lane as u64, 2);
                    assert(words_to_bytes(blk@) =~= mb.subrange(0, 54) + fixed_digits(
                        lane_prefix(set as int, lane as int) as nat,
                        2,
                    ) + fixed_digits(inner as nat, 7).reverse() + mb.subrange(63, 64));
                    blocks[lane] = blk;
                    lane += 1;
                }
                let mut state = [[0u32; 8]; 16];
                let mut lane: usize = 0;
                while lane < 16
                    invariant
                        lane <= 16,
                        forall|l: int| 0 <= l < lane ==> #[trigger] state@[l] == self.prefix_state,
                    decreases 16 - lane,
                {
                    state[lane] = self.prefix_state;
                    lane += 1;
                }
                compress16_without_feedback(&mut state, &blocks);
                let mut lane: usize = 0;
                while lane < 16
                    invariant
                        lane <= 16,
                        forall|l: int|
                            0 <= l < lane ==> #[trigger] state@[l]@ == compress(
                                self.prefix_state@,
                                blocks@[l]@,
                            ),
                        forall|l: int|
                            lane <= l < 16 ==> #[trigger] state@[l]@ == compress_rounds(
                                self.prefix_state@,
                                blocks@[l]@,
                            ),
                    decreases 16 - lane,
                {
                    let mut lane_state = state[lane];
                    let mut i: usize = 0;
                    while i < 8
                        invariant
                            i <= 8,
                            lane < 16,
                            state@[lane as int]@ == compress_rounds(
                                self.prefix_state@,
                                blocks@[lane as int]@,
                            ),
                            forall|j: int|
                                0 <= j < i ==> #[trigger] lane_state@[j] == compress(
                                    self.prefix_state@,
                                    blocks@[lane as int]@,
                                )[j],
                            forall|j: int| i <= j < 8 ==> #[trigger] lane_state@[j] == state@[lane as int]@[j],
                        decreases 8 - i,
                    {
                        lane_state[i] = self.prefix_state[i].wrapping_add(lane_state[i]);
                        i += 1;
                    }
                    assert(lane_state@ =~= compress(self.prefix_state@, blocks@[lane as int]@));
                    state[lane] = lane_state;
                    lane += 1;
                }
                let mid = state;
                compress16_with_schedule(&mut state, &self.terminal_message_schedule);
                let mut lane: usize = 0;
                while lane < 16
                    invariant
                        self.wf(),
                        self.prefix@ == prefix,
                        self.nonce_addend as nat == addend,
                        prefix == old(self).prefix@,
                        addend == old(self).nonce_addend,
                        self.terminal_message_schedule@ == schedule(term),
                        term == self.terminal_message_schedule@.subrange(0, 16),
                        t0 == target[0],
                        set < PREFIX_SETS,
                        inner < INNER_KEYS,
                        lane <= 16,
                        mb == words_to_bytes(self.message@),
                        mb.subrange(56, 64) == fixed_digits(inner as nat, 7).reverse() + mb.subrange(63, 64),
                        forall|l: int|
                            0 <= l < 16 ==> words_to_bytes(#[trigger] blocks@[l]@) == mb.subrange(
                                0,
                                54,
                            ) + fixed_digits(lane_prefix(set as int, l) as nat, 2) + fixed_digits(inner as nat, 7).reverse() + mb.subrange(63, 64),
                        forall|l: int|
                            0 <= l < 16 ==> #[trigger] mid@[l]@ == compress(
                                self.prefix_state@,
                                blocks@[l]@,
                            ),
                        forall|l: int|
                            0 <= l < 16 ==> #[trigger] state@[l]@ == compress_rounds(
                                mid@[l]@,
                                term,
                            ),
                        forall|s2: int, i2: int, l2: int|
                            in_keyspace(s2, i2, l2) && (s2 < set || (s2 == set && i2 < inner) || (
                            s2 == set && i2 == inner && l2 < lane)) ==> !#[trigger] is_hit(prefix, addend, true, t0,
                                s2,
                                i2,
                                l2,
                            ),
                    decreases 16 - lane,
                {
                    let a = mid[lane][0].wrapping_add(state[lane][0]);
                    proof {
                        self.lemma_lane_digest(blocks@[lane as int]@, set as int, inner as int, lane as int);
                        assert(a == compress(mid@[lane as int]@, term)[0]);
                    }
                    if a > t0 {
                        let np = 10 + 16 * set + lane as u64;
                        write_digits(&mut self.message, DIGIT_IDX, np, 2);
                        proof {
                            assert(words_to_bytes(self.message@) =~= words_to_bytes(
                                blocks@[lane as int]@,
                            ));
                            lemma_words_bytes_words(self.message@);
                            lemma_words_bytes_words(blocks@[lane as int]@);
                            assert(self.message@ == blocks@[lane as int]@);
                            assert(words_to_bytes(self.message@).subrange(0, 54) =~= mb.subrange(0, 54));
                            assert(words_to_bytes(self.message@)[63] == mb.subrange(63, 64)[0]);
                        }
                        let mut fin = self.prefix_state;
                        compress_block(&mut fin, &self.message);
                        let mut last = [0u32; 16];
                        let mut i: usize = 0;
                        while i < 16
                            invariant
                                i <= 16,
                                term == self.terminal_message_schedule@.subrange(0, 16),
                                forall|j: int| 0 <= j < i ==> #[trigger] last@[j] == term[j],
                            decreases 16 - i,
                        {
                            last[i] = self.terminal_message_schedule[i];
                            i += 1;
                        }
                        assert(last@ =~= term);
                        compress_block(&mut fin, &last);
                        let suffix = reversed_value(inner);
                        let nonce = self.nonce_addend + np * 10_000_000 + suffix;
                        proof {
                            let rev = fixed_digits(inner as nat, 7).reverse();
                            lemma_fixed_digits_text(inner as nat, 7);
                            lemma_digits_value_text(rev);
                            reveal_with_fuel(pow10, 8);
                            lemma_decimal_split(np as nat, suffix as nat, 7);
                            lemma_decimal_two_digits(np as nat);
                            assert(self.window() =~= fixed_digits(np as nat, 2) + fixed_digits(
                                suffix as nat,
                                7,
                            ));
                        }
                        let d = pack_top128(&fin);
                        assert(is_hit(prefix, addend, true, t0, set as int, inner as int, lane as int));
                        return Some((nonce, d));
                    }
                    lane += 1;
                }
                inner += 1;
            }
            set += 1;
        }
        None
    }
}

} // verus!
