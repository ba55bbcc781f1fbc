use vstd::prelude::*;
use crate::bytes::{
    decimal, ones, pow10, lemma_decimal_no_leading_zero, lemma_ones_below_pow10,
    lemma_pow10_monotone,
};
use crate::double::DoubleBlockSolver16Way;
use crate::message::{sha256_digest, top128};
use crate::single::{single_filler, SingleBlockSolver16Way};
use crate::{candidate_nonce, comes_before, in_keyspace, is_hit, search_outcome, target_of, Solver};

verus! {

/// The top 32-bit word of a 128-bit target.
pub open spec fn target_top_word(target: int) -> int {
    target / 0x1_0000_0000_0000_0000_0000_0000
}

/// A found nonce is a valid proof: the returned digest is the top 128 bits
/// of SHA-256 over the prefix followed by the nonce in decimal, and it is
/// strictly above the target of the difficulty whose top word was searched for.
pub proof fn theorem_proof_correct(
    prefix: Seq<u8>,
    addend: nat,
    reversed: bool,
    difficulty: u32,
    target_top: u32,
    nonce: u64,
    digest: u128,
)
    requires
        difficulty >= 1,
        target_top == target_top_word(target_of(difficulty)),
        search_outcome(prefix, addend, reversed, target_top, Some((nonce, digest))),
    ensures
        digest == top128(sha256_digest(prefix + decimal(nonce as nat))),
        digest > target_of(difficulty),
{
    let (s, i, l) = choose|s: int, i: int, l: int|
        {
            &&& in_keyspace(s, i, l)
            &&& nonce == candidate_nonce(addend, reversed, s, i, l)
            &&& #[trigger] is_hit(prefix, addend, reversed, target_top, s, i, l)
            &&& digest == top128(crate::candidate_digest(prefix, addend, reversed, s, i, l))
            &&& forall|s2: int, i2: int, l2: int|
                in_keyspace(s2, i2, l2) && comes_before(s2, i2, l2, s, i, l) ==> !#[trigger] is_hit(prefix, addend, reversed, target_top,
                    s2,
                    i2,
                    l2,
                )
        };
    let d = sha256_digest(prefix + decimal(nonce as nat));
    let t = target_of(difficulty);
    let m = 0x1_0000_0000_0000_0000_0000_0000int;
    vstd::arithmetic::div_mod::lemma_fundamental_div_mod(t, m);
    assert(d[0] >= target_top + 1);
    assert(top128(d) >= d[0] as int * m) by (nonlinear_arith)
        requires
            top128(d) == d[0] as int * m + d[1] as int * 0x1_0000_0000_0000_0000 + d[2] as int
                * 0x1_0000_0000 + d[3] as int,
    ;
    assert(d[0] as int * m >= (target_top + 1) * m) by (nonlinear_arith)
        requires
            d[0] >= target_top + 1,
            m > 0,
    ;
}

/// The digest a search returns has the very top word that beat the target
/// word in the lane comparison.
pub proof fn theorem_returned_digest_beats_top_word(
    prefix: Seq<u8>,
    addend: nat,
    reversed: bool,
    target_top: u32,
    nonce: u64,
    digest: u128,
)
    requires
        search_outcome(prefix, addend, reversed, target_top, Some((nonce, digest))),
    ensures
        target_top_word(digest as int) > target_top,
{
    let (s, i, l) = choose|s: int, i: int, l: int|
        {
            &&& in_keyspace(s, i, l)
            &&& nonce == candidate_nonce(addend, reversed, s, i, l)
            &&& #[trigger] is_hit(prefix, addend, reversed, target_top, s, i, l)
            &&& digest == top128(crate::candidate_digest(prefix, addend, reversed, s, i, l))
            &&& forall|s2: int, i2: int, l2: int|
                in_keyspace(s2, i2, l2) && comes_before(s2, i2, l2, s, i, l) ==> !#[trigger] is_hit(prefix, addend, reversed, target_top,
                    s2,
                    i2,
                    l2,
                )
        };
    let d = crate::candidate_digest(prefix, addend, reversed, s, i, l);
    let m = 0x1_0000_0000_0000_0000_0000_0000int;
    let low = d[1] as int * 0x1_0000_0000_0000_0000 + d[2] as int * 0x1_0000_0000 + d[3] as int;
    assert(0 <= low < m) by (nonlinear_arith)
        requires
            low == d[1] as int * 0x1_0000_0000_0000_0000 + d[2] as int * 0x1_0000_0000 + d[3] as int,
            d[1] < 0x1_0000_0000,
            d[2] < 0x1_0000_0000,
            d[3] < 0x1_0000_0000,
            d[1] >= 0,
            d[2] >= 0,
            d[3] >= 0,
            m == 0x1_0000_0000_0000_0000_0000_0000int,
    ;
    vstd::arithmetic::div_mod::lemma_fundamental_div_mod_converse(
        digest as int,
        m,
        d[0] as int,
        low,
    );
}

/// A found nonce's decimal text has no leading zero: the nonce is at least
/// `10^8` above the filler's contribution.
pub proof fn theorem_nonce_decimal(
    prefix: Seq<u8>,
    addend: nat,
    reversed: bool,
    target_top: u32,
    nonce: u64,
    digest: u128,
)
    requires
        search_outcome(prefix, addend, reversed, target_top, Some((nonce, digest))),
    ensures
        nonce >= addend + 100_000_000,
        decimal(nonce as nat)[0] != 48u8,
{
    lemma_decimal_no_leading_zero(nonce as nat);
}

/// Searches over the same prefix, filler and target give the same result.
pub proof fn theorem_search_deterministic(
    prefix: Seq<u8>,
    addend: nat,
    reversed: bool,
    target_top: u32,
    r1: Option<(u64, u128)>,
    r2: Option<(u64, u128)>,
)
    requires
        search_outcome(prefix, addend, reversed, target_top, r1),
        search_outcome(prefix, addend, reversed, target_top, r2),
    ensures
        r1 == r2,
{
    match (r1, r2) {
        (Some((n1, d1)), Some((n2, d2))) => {
            let (s1, i1, l1) = choose|s: int, i: int, l: int|
                {
                    &&& in_keyspace(s, i, l)
                    &&& n1 == candidate_nonce(addend, reversed, s, i, l)
                    &&& #[trigger] is_hit(prefix, addend, reversed, target_top, s, i, l)
                    &&& d1 == top128(crate::candidate_digest(prefix, addend, reversed, s, i, l))
                    &&& forall|s2: int, i2: int, l2: int|
                        in_keyspace(s2, i2, l2) && comes_before(s2, i2, l2, s, i, l)
                            ==> !#[trigger] is_hit(prefix, addend, reversed, target_top, s2, i2, l2)
                };
            let (s2, i2, l2) = choose|s: int, i: int, l: int|
                {
                    &&& in_keyspace(s, i, l)
                    &&& n2 == candidate_nonce(addend, reversed, s, i, l)
                    &&& #[trigger] is_hit(prefix, addend, reversed, target_top, s, i, l)
                    &&& d2 == top128(crate::candidate_digest(prefix, addend, reversed, s, i, l))
                    &&& forall|s3: int, i3: int, l3: int|
                        in_keyspace(s3, i3, l3) && comes_before(s3, i3, l3, s, i, l)
                            ==> !#[trigger] is_hit(prefix, addend, reversed, target_top, s3, i3, l3)
                };
            if comes_before(s1, i1, l1, s2, i2, l2) {
                assert(!is_hit(prefix, addend, reversed, target_top, s1, i1, l1));
            } else if comes_before(s2, i2, l2, s1, i1, l1) {
                assert(!is_hit(prefix, addend, reversed, target_top, s2, i2, l2));
            }
        },
        (Some((n1, d1)), None) => {
            let (s1, i1, l1) = choose|s: int, i: int, l: int|
                in_keyspace(s, i, l) && #[trigger] is_hit(prefix, addend, reversed, target_top, s, i, l);
        },
        (None, Some((n2, d2))) => {
            let (s2, i2, l2) = choose|s: int, i: int, l: int|
                in_keyspace(s, i, l) && #[trigger] is_hit(prefix, addend, reversed, target_top, s, i, l);
        },
        (None, None) => {},
    }
}

/// Every prefix can be solved by one of the two strategies.
pub proof fn theorem_coverage(prefix: Seq<u8>)
    ensures
        <SingleBlockSolver16Way as Solver>::accepts(prefix)
            || <DoubleBlockSolver16Way as Solver>::accepts(prefix),
{
    let len = prefix.len();
    let tail = len % 64;
    if tail > 54 {
        let k = single_filler(len);
        assert(k <= 9);
        lemma_ones_below_pow10(k);
        lemma_pow10_monotone(k, 9);
        reveal_with_fuel(pow10, 10);
        assert(ones(k) * 1_000_000_000 <= 1_000_000_000 * 1_000_000_000) by (nonlinear_arith)
            requires
                ones(k) <= 1_000_000_000,
        ;
    } else if tail <= 46 {
        assert(single_filler(len) == 0);
        assert(ones(0) == 0);
    }
}

/// A larger difficulty factor gives a strictly larger target.
pub proof fn theorem_target_monotone(d1: u32, d2: u32)
    requires
        1 <= d1 < d2,
    ensures
        target_of(d1) < target_of(d2),
{
    let m = u128::MAX as int;
    let q2 = m / (d2 as int);
    vstd::arithmetic::div_mod::lemma_fundamental_div_mod(m, d2 as int);
    assert(q2 * (d2 as int) <= m) by (nonlinear_arith)
        requires
            m == (d2 as int) * q2 + m % (d2 as int),
            m % (d2 as int) >= 0,
    ;
    assert(q2 >= d1 as int) by (nonlinear_arith)
        requires
            q2 == m / (d2 as int),
            m == u128::MAX as int,
            1 <= d1 < d2,
            d2 <= u32::MAX,
    ;
    assert((q2 + 1) * (d1 as int) <= m) by (nonlinear_arith)
        requires
            q2 * (d2 as int) <= m,
            d1 as int + 1 <= d2 as int,
            q2 >= d1 as int,
            d1 >= 1,
    ;
    let x = (d1 as int) * (q2 + 1);
    assert(x == (q2 + 1) * (d1 as int)) by (nonlinear_arith)
        requires
            x == (d1 as int) * (q2 + 1),
    ;
    vstd::arithmetic::div_mod::lemma_div_is_ordered(x, m, d1 as int);
    vstd::arithmetic::div_mod::lemma_div_multiples_vanish(q2 + 1, d1 as int);
    assert(m / (d1 as int) >= q2 + 1);
}

} // verus!
