//! The instruction contract, the opcode tagging and the instruction set
//! registry.
//!
//! Each machine instruction declares how its two 64-bit operands are split
//! into subtable indices (`to_indices`), which subtables those indices are
//! looked up in (`subtables`), and how the looked-up field values are
//! recombined into the field element representing the instruction's output
//! (`combine_lookups`), together with the degree of that combination
//! polynomial (`g_poly_degree`).  The registry `Instruction` is the closed
//! enumeration over the supported variants that the surrounding virtual
//! machine dispatches on.

pub mod and;
pub mod or;
pub mod xor;

use vstd::prelude::*;
use vstd::arithmetic::power2::pow2;
use vstd::arithmetic::power2::lemma_pow2_strictly_increases;
use vstd::arithmetic::power2::lemma2_to64;
use vstd::bits::lemma_u64_pow2_no_overflow;
use vstd::bits::lemma_u64_shl_is_mul;
use crate::field::JoltField;
use crate::instruction_utils::valid_params;
use crate::instruction_utils::weighted_sum;
use crate::instruction_utils::lemma_weighted_sum_scale;
use crate::instruction_utils::lemma_weighted_sum_add;
use crate::subtable::Subtable;
use self::and::ANDInstruction;
use self::or::ORInstruction;
use self::xor::XORInstruction;

verus! {

/// A rejected `(C, M)` configuration, reported before any lookup occurs.
#[derive(Clone, Copy, Debug, PartialEq, Eq, Structural)]
pub enum ConfigError {
    /// The table size `M` is not a power of two.
    NotPowerOfTwo,
    /// `log2(M)` is odd, so an index cannot split evenly between operands.
    OddLogM,
    /// The chunk count `C` is zero.
    ZeroChunkCount,
    /// `C * log2(M)/2 < 64`: the chunks cannot cover the 64 operand bits.
    OperandsNotCovered,
}

/// Whether `m` is a power of two.
pub open spec fn spec_is_pow2(m: nat) -> bool {
    exists|t: nat| m == pow2(t)
}

/// The binary logarithm of `m`, meaningful when `m` is a power of two.
pub open spec fn spec_log2(m: nat) -> nat {
    choose|t: nat| m == pow2(t)
}

/// The configuration error reported for `(c, m)`, if any; checks are made in
/// this fixed order.
pub open spec fn config_error(c: nat, m: nat) -> Option<ConfigError> {
    if !spec_is_pow2(m) {
        Some(ConfigError::NotPowerOfTwo)
    } else if spec_log2(m) % 2 != 0 {
        Some(ConfigError::OddLogM)
    } else if c == 0 {
        Some(ConfigError::ZeroChunkCount)
    } else if c * (spec_log2(m) / 2) < 64 {
        Some(ConfigError::OperandsNotCovered)
    } else {
        None
    }
}

proof fn lemma_spec_log2(t: nat)
    ensures
        spec_is_pow2(pow2(t)),
        spec_log2(pow2(t)) == t,
{
    assert(spec_is_pow2(pow2(t))) by {
        assert(pow2(t) == pow2(t));
    }
    let s = choose|s: nat| pow2(t) == pow2(s);
    if s < t {
        lemma_pow2_strictly_increases(s, t);
    }
    if s > t {
        lemma_pow2_strictly_increases(t, s);
    }
}

/// Exact binary logarithm: `Some(t)` with `m == 2^t` when `m` is a power of
/// two, `None` otherwise.
pub fn log2_exact(m: usize) -> (r: Option<usize>)
    ensures
        match r {
            Some(t) => t < 64 && m as nat == pow2(t as nat),
            None => forall|t: nat| m as nat != pow2(t),
        },
{
    let mut t: usize = 0;
    while t < 64
        invariant
            t <= 64,
            forall|s: nat| s < t as nat ==> m as nat != pow2(s),
        decreases 64 - t,
    {
        proof {
            lemma_u64_pow2_no_overflow(t as nat);
            lemma_u64_shl_is_mul(1u64, t as u64);
        }
        if (1u64 << (t as u64)) == (m as u64) {
            return Some(t);
        }
        t += 1;
    }
    proof {
        assert forall|s: nat| m as nat != pow2(s) by {
            if s >= 64 {
                lemma2_to64();
                if s > 64 {
                    lemma_pow2_strictly_increases(64, s);
                }
            }
        }
    }
    None
}

/// Validates the global `(C, M)` configuration, returning `log2(M)` when it
/// is usable and the matching `ConfigError` when it is not.
pub fn check_config(c: usize, m: usize) -> (r: Result<usize, ConfigError>)
    ensures
        match r {
            Ok(t) => {
                &&& config_error(c as nat, m as nat) is None
                &&& t as nat == spec_log2(m as nat)
                &&& m as nat == pow2(t as nat)
                &&& valid_params(c as nat, t as nat)
            },
            Err(e) => config_error(c as nat, m as nat) == Some(e),
        },
{
    match log2_exact(m) {
        None => Err(ConfigError::NotPowerOfTwo),
        Some(t) => {
            proof {
                lemma_spec_log2(t as nat);
            }
            if t % 2 != 0 {
                Err(ConfigError::OddLogM)
            } else if c == 0 {
                Err(ConfigError::ZeroChunkCount)
            } else {
                let half = t / 2;
                proof {
                    assert((c as nat) < 64 ==> (c as nat) * (half as nat) < 2048)
                        by (nonlinear_arith)
                        requires
                            (half as nat) < 32,
                    ;
                }
                let covered = half >= 1 && (c >= 64 || c * half >= 64);
                proof {
                    if half >= 1 && c >= 64 {
                        assert((c as nat) * (half as nat) >= 64) by (nonlinear_arith)
                            requires
                                c as nat >= 64,
                                half as nat >= 1,
                        ;
                    }
                    if !covered && half >= 1 && c < 64 {
                        assert((c as nat) * (half as nat) < 64);
                    }
                    if half == 0 {
                        assert((c as nat) * (half as nat) == 0) by (nonlinear_arith)
                            requires
                                half as nat == 0,
                        ;
                    }
                }
                if covered {
                    Ok(t)
                } else {
                    Err(ConfigError::OperandsNotCovered)
                }
            }
        },
    }
}

/// The contract implemented once per instruction variant.  Every operation
/// is a pure function of its declared inputs: the exact result of each is
/// pinned by its contract, so repeated calls with identical inputs yield
/// identical outputs.
pub trait JoltInstruction: Sized {
    /// The 64-bit machine semantics of this instruction on its operands.
    spec fn lookup_output(&self) -> u64;

    /// The chunk index declared at (most-significant-first) position `i`.
    spec fn index_at(&self, i: nat, c: nat, log_m: nat) -> nat;

    /// The combination polynomial, over the looked-up digit values.
    spec fn combine_spec(&self, vals: Seq<nat>, c: nat, log_m: nat) -> nat;

    /// The declared total degree of the combination polynomial.
    spec fn degree_spec(&self, c: nat) -> nat;

    /// The subtables consulted, in the order matching `to_indices`.
    spec fn subtables_spec(&self) -> Seq<Subtable>;

    /// Splits the operand pair into exactly `c` chunk indices in `[0, m)`,
    /// most-significant chunk first, or reports the configuration error.
    fn to_indices(&self, c: usize, m: usize) -> (r: Result<Vec<usize>, ConfigError>)
        ensures
            match r {
                Ok(v) => {
                    &&& config_error(c as nat, m as nat) is None
                    &&& v@.len() == c
                    &&& forall|i: int|
                        0 <= i < c as int ==> v@[i] as nat == self.index_at(
                            i as nat,
                            c as nat,
                            spec_log2(m as nat),
                        )
                    &&& forall|i: int| 0 <= i < c as int ==> (v@[i] as nat) < m as nat
                },
                Err(e) => config_error(c as nat, m as nat) == Some(e),
            },
    ;

    /// Recombines the looked-up field values into the field element that
    /// represents the instruction's output.
    fn combine_lookups<F: JoltField>(&self, vals: &[F], c: usize, m: usize) -> (r: F)
        requires
            config_error(c as nat, m as nat) is None,
            vals@.len() == self.subtables_spec().len() * c,
            forall|i: int| 0 <= i < vals@.len() ==> (#[trigger] vals@[i]).val() < F::modulus(),
        ensures
            r.val() == self.combine_spec(
                Seq::new(vals@.len(), |i: int| vals@[i].val()),
                c as nat,
                spec_log2(m as nat),
            ) % F::modulus(),
    ;

    /// The degree of the combination polynomial, independent of the operands.
    fn g_poly_degree(&self, c: usize) -> (r: usize)
        ensures
            r as nat == self.degree_spec(c as nat),
    ;

    /// The subtables this instruction's chunks are evaluated against.
    fn subtables(&self) -> (r: Vec<Subtable>)
        ensures
            r@ == self.subtables_spec(),
    ;

    /// Round-trip correctness: combining the subtable entries looked up at
    /// this instruction's own indices yields the instruction's 64-bit
    /// output, modulo the order of any field the values are carried in.
    proof fn lemma_round_trip(&self, c: nat, log_m: nat, p: nat)
        requires
            valid_params(c, log_m),
            p >= 2,
        ensures
            self.combine_spec(
                Seq::new(
                    self.subtables_spec().len() * c,
                    |j: int|
                        self.subtables_spec()[j / c as int].entry(
                            self.index_at((j % c as int) as nat, c, log_m),
                            log_m,
                        ) % p,
                ),
                c,
                log_m,
            ) % p == self.lookup_output() as nat % p,
    ;
}

/// Opcode tagging: a stable one-byte identifier per instruction variant.
pub trait Opcode {
    /// The tag, as a function of the variant alone.
    spec fn opcode_spec(&self) -> u8;

    /// Returns the variant's tag.
    fn to_opcode(&self) -> (r: u8)
        ensures
            r == self.opcode_spec(),
    ;
}

/// The closed, exhaustive enumeration over the supported instruction
/// variants: the capability-typed handle the surrounding VM dispatches on.
#[derive(Clone, Copy, Debug, PartialEq, Eq, Structural)]
pub enum Instruction {
    And(ANDInstruction),
    Or(ORInstruction),
    Xor(XORInstruction),
}

impl JoltInstruction for Instruction {
    open spec fn lookup_output(&self) -> u64 {
        match self {
            Instruction::And(i) => i.lookup_output(),
            Instruction::Or(i) => i.lookup_output(),
            Instruction::Xor(i) => i.lookup_output(),
        }
    }

    open spec fn index_at(&self, i: nat, c: nat, log_m: nat) -> nat {
        match self {
            Instruction::And(instr) => instr.index_at(i, c, log_m),
            Instruction::Or(instr) => instr.index_at(i, c, log_m),
            Instruction::Xor(instr) => instr.index_at(i, c, log_m),
        }
    }

    open spec fn combine_spec(&self, vals: Seq<nat>, c: nat, log_m: nat) -> nat {
        match self {
            Instruction::And(i) => i.combine_spec(vals, c, log_m),
            Instruction::Or(i) => i.combine_spec(vals, c, log_m),
            Instruction::Xor(i) => i.combine_spec(vals, c, log_m),
        }
    }

    open spec fn degree_spec(&self, c: nat) -> nat {
        match self {
            Instruction::And(i) => i.degree_spec(c),
            Instruction::Or(i) => i.degree_spec(c),
            Instruction::Xor(i) => i.degree_spec(c),
        }
    }

    open spec fn subtables_spec(&self) -> Seq<Subtable> {
        match self {
            Instruction::And(i) => i.subtables_spec(),
            Instruction::Or(i) => i.subtables_spec(),
            Instruction::Xor(i) => i.subtables_spec(),
        }
    }

    fn to_indices(&self, c: usize, m: usize) -> (r: Result<Vec<usize>, ConfigError>) {
        match self {
            Instruction::And(i) => i.to_indices(c, m),
            Instruction::Or(i) => i.to_indices(c, m),
            Instruction::Xor(i) => i.to_indices(c, m),
        }
    }

    fn combine_lookups<F: JoltField>(&self, vals: &[F], c: usize, m: usize) -> (r: F) {
        match self {
            Instruction::And(i) => i.combine_lookups(vals, c, m),
            Instruction::Or(i) => i.combine_lookups(vals, c, m),
            Instruction::Xor(i) => i.combine_lookups(vals, c, m),
        }
    }

    fn g_poly_degree(&self, c: usize) -> (r: usize) {
        match self {
            Instruction::And(i) => i.g_poly_degree(c),
            Instruction::Or(i) => i.g_poly_degree(c),
            Instruction::Xor(i) => i.g_poly_degree(c),
        }
    }

    fn subtables(&self) -> (r: Vec<Subtable>) {
        match self {
            Instruction::And(i) => i.subtables(),
            Instruction::Or(i) => i.subtables(),
            Instruction::Xor(i) => i.subtables(),
        }
    }

    proof fn lemma_round_trip(&self, c: nat, log_m: nat, p: nat) {
        match self {
            Instruction::And(i) => {
                i.lemma_round_trip(c, log_m, p);
                let s_enum = Seq::new(
                    self.subtables_spec().len() * c,
                    |j: int|
                        self.subtables_spec()[j / c as int].entry(
                            self.index_at((j % c as int) as nat, c, log_m),
                            log_m,
                        ) % p,
                );
                let s_inner = Seq::new(
                    i.subtables_spec().len() * c,
                    |j: int|
                        i.subtables_spec()[j / c as int].entry(
                            i.index_at((j % c as int) as nat, c, log_m),
                            log_m,
                        ) % p,
                );
                assert(s_enum =~= s_inner);
                assert(self.combine_spec(s_enum, c, log_m) == i.combine_spec(s_inner, c, log_m));
            },
            Instruction::Or(i) => {
                i.lemma_round_trip(c, log_m, p);
                let s_enum = Seq::new(
                    self.subtables_spec().len() * c,
                    |j: int|
                        self.subtables_spec()[j / c as int].entry(
                            self.index_at((j % c as int) as nat, c, log_m),
                            log_m,
                        ) % p,
                );
                let s_inner = Seq::new(
                    i.subtables_spec().len() * c,
                    |j: int|
                        i.subtables_spec()[j / c as int].entry(
                            i.index_at((j % c as int) as nat, c, log_m),
                            log_m,
                        ) % p,
                );
                assert(s_enum =~= s_inner);
                assert(self.combine_spec(s_enum, c, log_m) == i.combine_spec(s_inner, c, log_m));
            },
            Instruction::Xor(i) => {
                i.lemma_round_trip(c, log_m, p);
                let s_enum = Seq::new(
                    self.subtables_spec().len() * c,
                    |j: int|
                        self.subtables_spec()[j / c as int].entry(
                            self.index_at((j % c as int) as nat, c, log_m),
                            log_m,
                        ) % p,
                );
                let s_inner = Seq::new(
                    i.subtables_spec().len() * c,
                    |j: int|
                        i.subtables_spec()[j / c as int].entry(
                            i.index_at((j % c as int) as nat, c, log_m),
                            log_m,
                        ) % p,
                );
                assert(s_enum =~= s_inner);
                assert(self.combine_spec(s_enum, c, log_m) == i.combine_spec(s_inner, c, log_m));
            },
        }
    }
}

impl Opcode for Instruction {
    open spec fn opcode_spec(&self) -> u8 {
        match self {
            Instruction::And(_) => 0,
            Instruction::Or(_) => 1,
            Instruction::Xor(_) => 2,
        }
    }

    fn to_opcode(&self) -> (r: u8) {
        match self {
            Instruction::And(_) => 0,
            Instruction::Or(_) => 1,
            Instruction::Xor(_) => 2,
        }
    }
}

/// Whether two instruction values carry the same variant tag.
pub open spec fn same_variant(a: &Instruction, b: &Instruction) -> bool {
    &&& (a is And <==> b is And)
    &&& (a is Or <==> b is Or)
    &&& (a is Xor <==> b is Xor)
}

/// Opcode tag injectivity: distinct variants never share a tag.
pub proof fn lemma_opcode_injective(a: &Instruction, b: &Instruction)
    ensures
        a.opcode_spec() == b.opcode_spec() ==> same_variant(a, b),
{
}

/// The variant tag alone determines the subtable set and the declared
/// combination-polynomial degree: they never vary with the operand values.
pub proof fn lemma_variant_determines_parameters(a: &Instruction, b: &Instruction, c: nat)
    requires
        same_variant(a, b),
    ensures
        a.subtables_spec() == b.subtables_spec(),
        a.degree_spec(c) == b.degree_spec(c),
{
}

proof fn lemma_combine_is_weighted_sum(instr: &Instruction, vals: Seq<nat>, c: nat, log_m: nat)
    ensures
        instr.combine_spec(vals, c, log_m) == weighted_sum(vals, log_m / 2),
        instr.degree_spec(c) == 1,
{
    match instr {
        Instruction::And(_) => {},
        Instruction::Or(_) => {},
        Instruction::Xor(_) => {},
    }
}

/// Degree bound: for every instruction in the set the combination
/// polynomial is linear in the lookup values — scaling every value by `k`
/// scales the result by `k`, and value-wise sums combine to the sum of the
/// results — matching the declared degree of 1.
pub proof fn lemma_degree_bound(
    instr: &Instruction,
    c: nat,
    log_m: nat,
    vals1: Seq<nat>,
    vals2: Seq<nat>,
    k: nat,
)
    requires
        vals1.len() == vals2.len(),
    ensures
        instr.combine_spec(Seq::new(vals1.len(), |i: int| k * vals1[i]), c, log_m) == k
            * instr.combine_spec(vals1, c, log_m),
        instr.combine_spec(Seq::new(vals1.len(), |i: int| vals1[i] + vals2[i]), c, log_m)
            == instr.combine_spec(vals1, c, log_m) + instr.combine_spec(vals2, c, log_m),
        instr.degree_spec(c) == 1,
{
    lemma_combine_is_weighted_sum(instr, vals1, c, log_m);
    lemma_combine_is_weighted_sum(instr, vals2, c, log_m);
    lemma_combine_is_weighted_sum(instr, Seq::new(vals1.len(), |i: int| k * vals1[i]), c, log_m);
    lemma_combine_is_weighted_sum(
        instr,
        Seq::new(vals1.len(), |i: int| vals1[i] + vals2[i]),
        c,
        log_m,
    );
    lemma_weighted_sum_scale(vals1, k, log_m / 2);
    lemma_weighted_sum_add(vals1, vals2, log_m / 2);
}

/// One full decomposition cycle against the declared subtables: chunk the
/// operand pair, evaluate every subtable at every chunk index, and recombine.
/// On a valid configuration the result is exactly the field embedding of the
/// instruction's 64-bit output; otherwise the configuration error is
/// reported before any lookup.
pub fn evaluate_instruction<F: JoltField, I: JoltInstruction>(instr: &I, c: usize, m: usize) -> (r:
    Result<F, ConfigError>)
    ensures
        match r {
            Ok(v) => {
                &&& config_error(c as nat, m as nat) is None
                &&& v.val() == instr.lookup_output() as nat % F::modulus()
            },
            Err(e) => config_error(c as nat, m as nat) == Some(e),
        },
{
    proof {
        F::modulus_at_least_two();
    }
    let log_m = match check_config(c, m) {
        Err(e) => {
            return Err(e);
        },
        Ok(t) => t,
    };
    let indices = match instr.to_indices(c, m) {
        Err(e) => {
            proof {
                assert(false);
            }
            return Err(e);
        },
        Ok(v) => v,
    };
    let subtables = instr.subtables();
    let n_subs = subtables.len();
    let mut vals: Vec<F> = Vec::new();
    let mut s: usize = 0;
    while s < n_subs
        invariant
            instr.subtables_spec() == subtables@,
            n_subs == subtables@.len(),
            2 <= log_m < 64,
            log_m % 2 == 0,
            indices@.len() == c,
            forall|i: int|
                0 <= i < c as int ==> indices@[i] as nat == instr.index_at(
                    i as nat,
                    c as nat,
                    log_m as nat,
                ),
            F::modulus() >= 2,
            s <= n_subs,
            vals@.len() == s as nat * c as nat,
            forall|j: int|
                0 <= j < vals@.len() ==> (#[trigger] vals@[j]).val() == subtables@[j / c as int].entry(
                    instr.index_at((j % c as int) as nat, c as nat, log_m as nat),
                    log_m as nat,
                ) % F::modulus(),
        decreases n_subs - s,
    {
        let mut i: usize = 0;
        while i < c
            invariant
                instr.subtables_spec() == subtables@,
                n_subs == subtables@.len(),
                2 <= log_m < 64,
                log_m % 2 == 0,
                indices@.len() == c,
                forall|k: int|
                    0 <= k < c as int ==> indices@[k] as nat == instr.index_at(
                        k as nat,
                        c as nat,
                        log_m as nat,
                    ),
                F::modulus() >= 2,
                s < n_subs,
                i <= c,
                vals@.len() == s as nat * c as nat + i as nat,
                forall|j: int|
                    0 <= j < vals@.len() ==> (#[trigger] vals@[j]).val() == subtables@[j
                        / c as int].entry(
                        instr.index_at((j % c as int) as nat, c as nat, log_m as nat),
                        log_m as nat,
                    ) % F::modulus(),
            decreases c - i,
        {
            let v: F = subtables[s].evaluate(indices[i], log_m);
            vals.push(v);
            proof {
                vstd::arithmetic::div_mod::lemma_fundamental_div_mod_converse(
                    (s as nat * c as nat + i as nat) as int,
                    c as int,
                    s as int,
                    i as int,
                );
            }
            i += 1;
        }
        proof {
            assert(s as nat * c as nat + c as nat == (s + 1) as nat * c as nat)
                by (nonlinear_arith);
        }
        s += 1;
    }
    proof {
        assert(vals@.len() == instr.subtables_spec().len() * c as nat);
        assert forall|j: int| 0 <= j < vals@.len() implies (#[trigger] vals@[j]).val()
            < F::modulus() by {
            vstd::arithmetic::div_mod::lemma_mod_division_less_than_divisor(
                instr.subtables_spec()[j / c as int].entry(
                    instr.index_at((j % c as int) as nat, c as nat, log_m as nat),
                    log_m as nat,
                ) as int,
                F::modulus() as int,
            );
        }
    }
    let r = instr.combine_lookups(&vals, c, m);
    proof {
        instr.lemma_round_trip(c as nat, log_m as nat, F::modulus());
        assert(Seq::new(vals@.len(), |i: int| vals@[i].val()) =~= Seq::new(
            instr.subtables_spec().len() * c as nat,
            |j: int|
                instr.subtables_spec()[j / c as int].entry(
                    instr.index_at((j % c as int) as nat, c as nat, log_m as nat),
                    log_m as nat,
                ) % F::modulus(),
        ));
    }
    Ok(r)
}

} // verus!
