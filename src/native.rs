use vstd::prelude::*;
use crate::bytes::{
    block_to_bytes, decimal, fixed_digits, lemma_decimal_fixed_width, ones, ones_text, pow10, lemma_decimal_ones, lemma_pow10_positive,
};
use crate::message::{absorb, lemma_absorb_full_part, pack_top128, top128, zeros};
use crate::sha256::initial_state;
use crate::single::{single_accepts, single_addend, single_conditioned, single_filler, SingleBlockSolver16Way};
use crate::Solver;

verus! {

/// The state `sha2::compress256` produces from a state and one block.
pub uninterp spec fn compress256_of(state: Seq<u32>, block: Seq<u8>) -> Seq<u32>;

/// Relies on `sha2::compress256`: one SHA-256 compression of one 64-byte
/// block, whose result depends on the state and the block alone.
#[verifier::external_body]
fn compress_one(state: &mut [u32; 8], block: &[u8; 64])
    ensures
        final(state)@ == compress256_of(old(state)@, block@),
{
    sha2::compress256(state, &[sha2::digest::generic_array::GenericArray::from(*block)]);
}

/// The nine-digit keys the scalar search covers.
pub open spec fn in_native_keyspace(key: int) -> bool {
    100_000_000 <= key < 1_000_000_000
}

/// Search order: keys from 900_000_000 up first, then from 100_000_000 up.
pub open spec fn native_rank(key: int) -> int {
    if key >= 900_000_000 {
        key - 900_000_000
    } else {
        key + 100_000_000
    }
}

/// The final block with `key`'s nine digits in its window.
pub open spec fn native_block(template: Seq<u8>, di: int, key: int) -> Seq<u8> {
    template.subrange(0, di) + fixed_digits(key as nat, 9) + template.subrange(di + 9, 64)
}

/// Whether a key's top state word beats the target word.
pub open spec fn native_hit(ps: Seq<u32>, template: Seq<u8>, di: int, target_top: u32, key: int) -> bool {
    compress256_of(ps, native_block(template, di, key))[0] > target_top
}

/// What the scalar search returns: the first hit in its order with the
/// digest, or nothing when no key hits.
pub open spec fn native_outcome(
    ps: Seq<u32>,
    template: Seq<u8>,
    di: int,
    addend: nat,
    target_top: u32,
    r: Option<(u64, u128)>,
) -> bool {
    match r {
        None => forall|key: int|
            in_native_keyspace(key) ==> !#[trigger] native_hit(ps, template, di, target_top, key),
        Some((n, d)) => exists|key: int|
            {
                &&& in_native_keyspace(key)
                &&& n == addend + key
                &&& #[trigger] native_hit(ps, template, di, target_top, key)
                &&& d == top128(compress256_of(ps, native_block(template, di, key)))
                &&& forall|k2: int|
                    in_native_keyspace(k2) && native_rank(k2) < native_rank(key) ==> !#[trigger] native_hit(
                        ps,
                        template,
                        di,
                        target_top,
                        k2,
                    )
            },
    }
}

/// Writes the nine decimal digits of `key` in ASCII at `pos..pos + 9`.
fn write_key(m: &mut [u8; 64], pos: usize, key: u64)
    requires
        pos + 9 <= 64,
    ensures
        final(m)@ == old(m)@.subrange(0, pos as int) + fixed_digits(key as nat, 9) + old(m)@.subrange(
            pos + 9,
            64,
        ),
{
    let ghost digits = fixed_digits(key as nat, 9);
    let mut cur = key;
    let mut i: usize = 9;
    assert(pow10(0) == 1);
    assert(key as nat / 1 == key as nat);
    while i > 0
        invariant
            i <= 9,
            pos + 9 <= 64,
            digits == fixed_digits(key as nat, 9),
            cur as nat == key as nat / pow10((9 - i) as nat),
            forall|q: int|
                0 <= q < 64 ==> #[trigger] m@[q] == if pos + i <= q < pos + 9 {
                    digits[q - pos]
                } else {
                    old(m)@[q]
                },
        decreases i,
    {
        m[pos + i - 1] = (cur % 10) as u8 + 48;
        proof {
            let e = (9 - i) as nat;
            lemma_pow10_positive(e);
            vstd::arithmetic::div_mod::lemma_div_denominator(key as int, pow10(e) as int, 10);
            assert(pow10(e + 1) == 10 * pow10(e));
        }
        cur = cur / 10;
        i = i - 1;
    }
    assert(m@ =~= old(m)@.subrange(0, pos as int) + digits + old(m)@.subrange(pos + 9, 64));
}

/// The scalar fallback: tries one nine-digit key at a time with the `sha2`
/// crate's compression, covering keys the 16-way search never forms.
pub struct SingleBlockSolverNative {
    pub(crate) prefix_state: [u32; 8],
    pub(crate) message: [u8; 64],
    pub(crate) digit_index: usize,
    pub(crate) nonce_addend: u64,
    pub(crate) prefix: Ghost<Seq<u8>>,
}

impl SingleBlockSolverNative {
    /// The chaining state every key is compressed from.
    pub closed spec fn chaining_state(&self) -> Seq<u32> {
        self.prefix_state@
    }

    /// The final block; its nine-byte window is rewritten for every key.
    pub closed spec fn template(&self) -> Seq<u8> {
        self.message@
    }

    /// The nine bytes of the final block's digit window.
    pub closed spec fn window(&self) -> Seq<u8> {
        self.message@.subrange(self.digit_index as int, self.digit_index + 9)
    }

    /// Offset of the nine-byte window.
    pub closed spec fn window_index(&self) -> int {
        self.digit_index as int
    }

    /// Conditioning: the chaining state is the prefix and its filler ones
    /// hashed block by block, and the filler's ones lead every nonce.
    pub proof fn lemma_conditioning(&self)
        requires
            self.wf(),
        ensures
            self.chaining_state() == absorb(
                initial_state(),
                self.prefix() + ones_text(single_filler(self.prefix().len())),
            ),
            self.addend() == ones(single_filler(self.prefix().len())) * 1_000_000_000,
            single_filler(self.prefix().len()) >= 1 ==> crate::bytes::decimal(
                ones(single_filler(self.prefix().len())),
            ) == ones_text(single_filler(self.prefix().len())),
    {
        let k = single_filler(self.prefix@.len());
        lemma_absorb_full_part(initial_state(), self.prefix@ + ones_text(k));
        if k >= 1 {
            lemma_decimal_ones(k);
        }
    }

    /// Tries the keys `lo..hi` in ascending order.
    fn scan(&mut self, lo: u64, hi: u64, target_top: u32) -> (r: Option<(u64, u128)>)
        requires
            old(self).wf(),
            100_000_000 <= lo <= hi <= 1_000_000_000,
        ensures
            final(self).wf(),
            final(self).prefix@ == old(self).prefix@,
            final(self).nonce_addend == old(self).nonce_addend,
            final(self).prefix_state == old(self).prefix_state,
            final(self).digit_index == old(self).digit_index,
            final(self).message@.subrange(0, old(self).digit_index as int) == old(
                self,
            ).message@.subrange(0, old(self).digit_index as int),
            final(self).message@.subrange(old(self).digit_index + 9, 64) == old(
                self,
            ).message@.subrange(old(self).digit_index + 9, 64),
            r is None ==> forall|key: int|
                lo <= key < hi ==> !#[trigger] native_hit(
                    old(self).prefix_state@,
                    old(self).message@,
                    old(self).digit_index as int,
                    target_top,
                    key,
                ),
            r matches Some((n, d)) ==> final(self).stamped(n),
            r matches Some((n, d)) ==> exists|key: int|
                {
                    &&& lo <= key < hi
                    &&& n == old(self).nonce_addend + key
                    &&& #[trigger] native_hit(
                        old(self).prefix_state@,
                        old(self).message@,
                        old(self).digit_index as int,
                        target_top,
                        key,
                    )
                    &&& d == top128(
                        compress256_of(
                            old(self).prefix_state@,
                            native_block(old(self).message@, old(self).digit_index as int, key),
                        ),
                    )
                    &&& forall|k2: int|
                        lo <= k2 < key ==> !#[trigger] native_hit(
                            old(self).prefix_state@,
                            old(self).message@,
                            old(self).digit_index as int,
                            target_top,
                            k2,
                        )
                },
    {
        let di = self.digit_index;
        let ghost ps = self.prefix_state@;
        let ghost tpl = self.message@;
        let mut key = lo;
        while key < hi
            invariant
                self.wf(),
                self.prefix@ == old(self).prefix@,
                self.nonce_addend == old(self).nonce_addend,
                self.prefix_state == old(self).prefix_state,
                self.digit_index == di,
                di == old(self).digit_index,
                ps == old(self).prefix_state@,
                tpl == old(self).message@,
                self.message@.subrange(0, di as int) == tpl.subrange(0, di as int),
                self.message@.subrange(di + 9, 64) == tpl.subrange(di + 9, 64),
                100_000_000 <= lo <= key <= hi <= 1_000_000_000,
                forall|k2: int| lo <= k2 < key ==> !#[trigger] native_hit(ps, tpl, di as int, target_top, k2),
            decreases hi - key,
        {
            write_key(&mut self.message, di, key);
            assert(self.message@ =~= native_block(tpl, di as int, key as int));
            assert(self.message@.subrange(0, di as int) =~= tpl.subrange(0, di as int));
            assert(self.message@.subrange(di + 9, 64) =~= tpl.subrange(di + 9, 64));
            let mut state = self.prefix_state;
            compress_one(&mut state, &self.message);
            if state[0] > target_top {
                let d = pack_top128(&state);
                assert(native_hit(ps, tpl, di as int, target_top, key as int));
                proof {
                    assert(pow10(8) == 100_000_000 && pow10(9) == 1_000_000_000) by {
                        reveal_with_fuel(pow10, 10);
                    }
                    lemma_decimal_fixed_width(key as nat, 9);
                    assert(self.window() =~= fixed_digits(key as nat, 9));
                }
                return Some((key + self.nonce_addend, d));
            }
            key += 1;
        }
        None
    }
}

impl Solver for SingleBlockSolverNative {
    type Ctx = ();

    closed spec fn prefix(&self) -> Seq<u8> {
        self.prefix@
    }

    closed spec fn addend(&self) -> nat {
        self.nonce_addend as nat
    }

    closed spec fn wf(&self) -> bool {
        &&& single_conditioned(
            self.prefix@,
            self.prefix_state@,
            self.message@,
            self.digit_index as int,
        )
        &&& self.nonce_addend == single_addend(self.prefix@.len())
        &&& self.nonce_addend + 1_000_000_000 <= u64::MAX
    }

    open spec fn fresh(&self) -> bool {
        self.window() == zeros(9)
    }

    open spec fn stamped(&self, nonce: u64) -> bool {
        self.window() == decimal((nonce - self.addend()) as nat)
    }

    open spec fn accepts(prefix: Seq<u8>) -> bool {
        single_accepts(prefix.len())
    }

    open spec fn addend_for(prefix: Seq<u8>) -> nat {
        single_addend(prefix.len())
    }

    open spec fn found(&self, target_top: u32, r: Option<(u64, u128)>) -> bool {
        native_outcome(
            self.chaining_state(),
            self.template(),
            self.window_index(),
            self.addend(),
            target_top,
            r,
        )
    }

    fn new(_ctx: (), prefix: &[u8]) -> (r: Option<Self>) {
        match SingleBlockSolver16Way::new((), prefix) {
            None => None,
            Some(s) => {
                proof {
                    s.lemma_field_bounds();
                }
                assert(s.fresh());
                let message = block_to_bytes(&s.message);
                assert(message@.subrange(s.digit_index as int, s.digit_index + 9) == zeros(9));
                Some(SingleBlockSolverNative {
                    prefix_state: s.prefix_state,
                    message,
                    digit_index: s.digit_index,
                    nonce_addend: s.nonce_addend,
                    prefix: Ghost(prefix@),
                })
            },
        }
    }

    fn solve(&mut self, target: [u32; 4]) -> (r: Option<(u64, u128)>) {
        let ghost ps = self.prefix_state@;
        let ghost tpl = self.message@;
        let ghost di = self.digit_index as int;
        let ghost addend = self.nonce_addend as nat;
        let t0 = target[0];
        match self.scan(900_000_000, 1_000_000_000, t0) {
            Some(x) => {
                proof {
                    let (n, d) = x;
                    let key = choose|key: int|
                        {
                            &&& 900_000_000 <= key < 1_000_000_000
                            &&& n == addend + key
                            &&& #[trigger] native_hit(ps, tpl, di, t0, key)
                            &&& d == top128(compress256_of(ps, native_block(tpl, di, key)))
                            &&& forall|k2: int|
                                900_000_000 <= k2 < key ==> !#[trigger] native_hit(
                                    ps,
                                    tpl,
                                    di,
                                    t0,
                                    k2,
                                )
                        };
                    assert forall|k2: int|
                        in_native_keyspace(k2) && native_rank(k2) < native_rank(
                            key,
                        ) implies !#[trigger] native_hit(ps, tpl, di, t0, k2) by {
                        assert(900_000_000 <= k2 < key);
                    }
                }
                return Some(x);
            },
            None => {},
        }
        let ghost mid = self.message@;
        let r = self.scan(100_000_000, 900_000_000, t0);
        proof {
            assert forall|key: int| #[trigger] native_hit(ps, mid, di, t0, key) == native_hit(
                ps,
                tpl,
                di,
                t0,
                key,
            ) by {
                assert(native_block(mid, di, key) =~= native_block(tpl, di, key));
            }
            match r {
                Some((n, d)) => {
                    let key = choose|key: int|
                        {
                            &&& 100_000_000 <= key < 900_000_000
                            &&& n == addend + key
                            &&& #[trigger] native_hit(ps, mid, di, t0, key)
                            &&& d == top128(compress256_of(ps, native_block(mid, di, key)))
                            &&& forall|k2: int|
                                100_000_000 <= k2 < key ==> !#[trigger] native_hit(
                                    ps,
                                    mid,
                                    di,
                                    t0,
                                    k2,
                                )
                        };
                    assert(native_block(mid, di, key) =~= native_block(tpl, di, key));
                    assert(native_hit(ps, tpl, di, t0, key));
                    assert forall|k2: int|
                        in_native_keyspace(k2) && native_rank(k2) < native_rank(
                            key,
                        ) implies !#[trigger] native_hit(ps, tpl, di, t0, k2) by {
                        if k2 < 900_000_000 {
                            assert(!native_hit(ps, mid, di, t0, k2));
                        }
                    }
                },
                None => {
                    assert forall|key: int| in_native_keyspace(key) implies !#[trigger] native_hit(
                        ps,
                        tpl,
                        di,
                        t0,
                        key,
                    ) by {
                        if key < 900_000_000 {
                            assert(!native_hit(ps, mid, di, t0, key));
                        }
                    }
                },
            }
        }
        r
    }
}

} // verus!
