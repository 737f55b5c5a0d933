//! The subtable capability consumed by the decomposition layer.
//!
//! A subtable is a small precomputed table, indexed by a chunk: the index of
//! a chunk encodes one `log2(M)/2`-bit group of each operand, and the entry
//! answers the instruction's operation on that pair of groups.  The set of
//! subtables is closed, so it is modelled as a sum type with one case per
//! table, giving exhaustiveness-checked dispatch.  Evaluation is
//! deterministic, pure and total over `[0, M)`.

use vstd::prelude::*;
use vstd::arithmetic::power2::pow2;
use vstd::arithmetic::power2::lemma_pow2_pos;
use vstd::bits::low_bits_mask;
use vstd::bits::lemma_u64_pow2_no_overflow;
use vstd::bits::lemma_u64_shl_is_mul;
use vstd::bits::lemma_u64_shr_is_div;
use vstd::bits::lemma_u64_low_bits_mask_is_mod;
use crate::field::JoltField;

verus! {

/// The subtable of bitwise XOR on the two operand halves of an index.
#[derive(Clone, Copy, Debug, PartialEq, Eq, Structural)]
pub struct XorSubtable;

/// The subtable of bitwise AND on the two operand halves of an index.
#[derive(Clone, Copy, Debug, PartialEq, Eq, Structural)]
pub struct AndSubtable;

/// The subtable of bitwise OR on the two operand halves of an index.
#[derive(Clone, Copy, Debug, PartialEq, Eq, Structural)]
pub struct OrSubtable;

impl XorSubtable {
    pub fn new() -> (r: Self)
        ensures
            r == XorSubtable,
    {
        XorSubtable
    }

    /// Table entry at `idx`: the XOR of the high and low halves of the index.
    pub open spec fn entry_spec(idx: nat, log_m: nat) -> nat {
        let b = log_m / 2;
        let hi = ((idx / pow2(b)) % pow2(b)) as u64;
        let lo = (idx % pow2(b)) as u64;
        (hi ^ lo) as nat
    }
}

impl AndSubtable {
    pub fn new() -> (r: Self)
        ensures
            r == AndSubtable,
    {
        AndSubtable
    }

    /// Table entry at `idx`: the AND of the high and low halves of the index.
    pub open spec fn entry_spec(idx: nat, log_m: nat) -> nat {
        let b = log_m / 2;
        let hi = ((idx / pow2(b)) % pow2(b)) as u64;
        let lo = (idx % pow2(b)) as u64;
        (hi & lo) as nat
    }
}

impl OrSubtable {
    pub fn new() -> (r: Self)
        ensures
            r == OrSubtable,
    {
        OrSubtable
    }

    /// Table entry at `idx`: the OR of the high and low halves of the index.
    pub open spec fn entry_spec(idx: nat, log_m: nat) -> nat {
        let b = log_m / 2;
        let hi = ((idx / pow2(b)) % pow2(b)) as u64;
        let lo = (idx % pow2(b)) as u64;
        (hi | lo) as nat
    }
}

/// The closed set of subtables the instruction set consults.
#[derive(Clone, Copy, Debug, PartialEq, Eq, Structural)]
pub enum Subtable {
    Xor(XorSubtable),
    And(AndSubtable),
    Or(OrSubtable),
}

/// Splits an index into its high and low `log_m / 2`-bit halves.
fn split_index(idx: usize, log_m: usize) -> (r: (u64, u64))
    requires
        2 <= log_m < 64,
        log_m % 2 == 0,
    ensures
        r.0 as nat == (idx as nat / pow2((log_m / 2) as nat)) % pow2((log_m / 2) as nat),
        r.1 as nat == idx as nat % pow2((log_m / 2) as nat),
{
    let b = log_m / 2;
    let idx64 = idx as u64;
    proof {
        lemma_u64_pow2_no_overflow(b as nat);
        lemma_u64_shl_is_mul(1u64, b as u64);
        lemma_pow2_pos(b as nat);
    }
    let mask: u64 = (1u64 << (b as u64)) - 1;
    let hi = (idx64 >> (b as u64)) & mask;
    let lo = idx64 & mask;
    proof {
        assert(mask as nat == low_bits_mask(b as nat));
        lemma_u64_shr_is_div(idx64, b as u64);
        lemma_u64_low_bits_mask_is_mod(idx64 >> (b as u64), b as nat);
        lemma_u64_low_bits_mask_is_mod(idx64, b as nat);
    }
    (hi, lo)
}

impl Subtable {
    /// The entry this subtable holds at index `idx`, as a machine integer.
    pub open spec fn entry(&self, idx: nat, log_m: nat) -> nat {
        match self {
            Subtable::Xor(_) => XorSubtable::entry_spec(idx, log_m),
            Subtable::And(_) => AndSubtable::entry_spec(idx, log_m),
            Subtable::Or(_) => OrSubtable::entry_spec(idx, log_m),
        }
    }

    /// Evaluates the subtable at a chunk index, as a field element.
    pub fn evaluate<F: JoltField>(&self, idx: usize, log_m: usize) -> (r: F)
        requires
            2 <= log_m < 64,
            log_m % 2 == 0,
        ensures
            r.val() == self.entry(idx as nat, log_m as nat) % F::modulus(),
    {
        let (hi, lo) = split_index(idx, log_m);
        match self {
            Subtable::Xor(_) => F::from_u64(hi ^ lo),
            Subtable::And(_) => F::from_u64(hi & lo),
            Subtable::Or(_) => F::from_u64(hi | lo),
        }
    }
}

} // verus!
