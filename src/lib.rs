use vstd::prelude::*;

pub mod bytes;
pub mod double;
pub mod message;
pub mod native;
pub mod prefix;
pub mod sha256;
pub mod single;
pub mod theorems;

pub use crate::double::DoubleBlockSolver16Way;
pub use crate::native::SingleBlockSolverNative;
pub use crate::single::SingleBlockSolver16Way;

use crate::bytes::{decimal, digits_value, fixed_digits};
use crate::message::{sha256_digest, top128};

verus! {

/// The acceptance threshold for a difficulty factor: a digest's top 128 bits
/// must be strictly greater than this value.
pub open spec fn target_of(difficulty_factor: u32) -> int {
    u128::MAX as int - (u128::MAX as int) / (difficulty_factor as int)
}

pub fn compute_target(difficulty_factor: u32) -> (r: u128)
    requires
        difficulty_factor >= 1,
    ensures
        r == target_of(difficulty_factor),
{
    u128::MAX - u128::MAX / (difficulty_factor as u128)
}

/// Number of lane-ID prefix sets searched.
pub const PREFIX_SETS: u64 = 5;

/// Number of inner keys (seven digits) searched per prefix set.
pub const INNER_KEYS: u64 = 10_000_000;

/// The longest prefix a solver accepts, far below SHA-256's 2^64-bit bound.
pub const MAX_PREFIX_LEN: u64 = 0x1000_0000_0000_0000;

/// Whether `(set, inner, lane)` addresses a candidate of the search.
pub open spec fn in_keyspace(set: int, inner: int, lane: int) -> bool {
    0 <= set < PREFIX_SETS && 0 <= inner < INNER_KEYS && 0 <= lane < 16
}

/// The lane-ID prefix (two digits, 10..=89) of a prefix set and a lane.
pub open spec fn lane_prefix(set: int, lane: int) -> int {
    10 + 16 * set + lane
}

/// The seven-digit nonce suffix an inner key stands for: its digits as
/// they are, or in reverse order.
pub open spec fn inner_suffix(inner: int, reversed: bool) -> int {
    if reversed {
        digits_value(fixed_digits(inner as nat, 7).reverse()) as int
    } else {
        inner
    }
}

/// The nonce that a candidate stands for.
pub open spec fn candidate_nonce(addend: nat, reversed: bool, set: int, inner: int, lane: int) -> nat {
    (addend + lane_prefix(set, lane) * INNER_KEYS + inner_suffix(inner, reversed)) as nat
}

/// The digest of the prefix followed by a candidate nonce in decimal.
pub open spec fn candidate_digest(
    prefix: Seq<u8>,
    addend: nat,
    reversed: bool,
    set: int,
    inner: int,
    lane: int,
) -> Seq<u32> {
    sha256_digest(prefix + decimal(candidate_nonce(addend, reversed, set, inner, lane)))
}

/// Whether a candidate's top digest word is strictly above the target's top word.
pub open spec fn is_hit(
    prefix: Seq<u8>,
    addend: nat,
    reversed: bool,
    target_top: u32,
    set: int,
    inner: int,
    lane: int,
) -> bool {
    candidate_digest(prefix, addend, reversed, set, inner, lane)[0] > target_top
}

/// Search order: prefix set, then inner key, then lane, all ascending.
pub open spec fn comes_before(s2: int, i2: int, l2: int, s: int, i: int, l: int) -> bool {
    s2 < s || (s2 == s && i2 < i) || (s2 == s && i2 == i && l2 < l)
}

/// What a search returns: the first hit in search order with its digest,
/// or nothing when no candidate hits.
pub open spec fn search_outcome(
    prefix: Seq<u8>,
    addend: nat,
    reversed: bool,
    target_top: u32,
    r: Option<(u64, u128)>,
) -> bool {
    match r {
        None => forall|s: int, i: int, l: int|
            in_keyspace(s, i, l) ==> !#[trigger] is_hit(prefix, addend, reversed, target_top, s, i, l),
        Some((n, d)) => exists|s: int, i: int, l: int|
            {
                &&& in_keyspace(s, i, l)
                &&& n == candidate_nonce(addend, reversed, s, i, l)
                &&& #[trigger] is_hit(prefix, addend, reversed, target_top, s, i, l)
                &&& d == top128(candidate_digest(prefix, addend, reversed, s, i, l))
                &&& forall|s2: int, i2: int, l2: int|
                    in_keyspace(s2, i2, l2) && comes_before(s2, i2, l2, s, i, l) ==> !#[trigger] is_hit(
                        prefix,
                        addend,
                        reversed,
                        target_top,
                        s2,
                        i2,
                        l2,
                    )
            },
    }
}

/// A proof-of-work search strategy over a fixed message prefix.
pub trait Solver {
    type Ctx;

    /// The prefix this solver was built from.
    spec fn prefix(&self) -> Seq<u8>;

    /// The value the filler ones contribute to every nonce.
    spec fn addend(&self) -> nat;

    /// The solver's internal consistency.
    spec fn wf(&self) -> bool;

    /// Whether this strategy can represent a prefix.
    spec fn accepts(prefix: Seq<u8>) -> bool;

    /// The filler value this strategy uses for a prefix.
    spec fn addend_for(prefix: Seq<u8>) -> nat;

    /// What a search for target word `target_top` returns, over this
    /// solver's search order.
    spec fn found(&self, target_top: u32, r: Option<(u64, u128)>) -> bool;

    /// The nine-byte digit window of a newly built solver is all zero bytes.
    spec fn fresh(&self) -> bool;

    /// The digit window holds the decimal text of `nonce` without the
    /// filler's contribution.
    spec fn stamped(&self, nonce: u64) -> bool;

    /// Builds a solver for `prefix`, or none when the strategy cannot represent it.
    fn new(ctx: Self::Ctx, prefix: &[u8]) -> (r: Option<Self>) where Self: Sized
        requires
            prefix@.len() < MAX_PREFIX_LEN,
        ensures
            r is Some <==> Self::accepts(prefix@),
            r matches Some(s) ==> s.wf() && s.fresh() && s.prefix() == prefix@ && s.addend()
                == Self::addend_for(prefix@),
    ;

    /// Searches for a nonce whose digest's top word beats `target[0]`.
    fn solve(&mut self, target: [u32; 4]) -> (r: Option<(u64, u128)>)
        requires
            old(self).wf(),
        ensures
            final(self).wf(),
            final(self).prefix() == old(self).prefix(),
            final(self).addend() == old(self).addend(),
            old(self).found(target[0], r),
            r matches Some((n, d)) ==> final(self).stamped(n),
    ;
}

} // verus!
