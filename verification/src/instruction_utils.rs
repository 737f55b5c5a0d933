//! Chunking and recombination utilities shared by the instruction
//! implementations.
//!
//! An operand pair `(x, y)` is split into `C` chunk indices, most-significant
//! chunk first: chunk `i` holds `log2(M)/2` bits of each operand, with the
//! bits of `x` in the high half of the index and the bits of `y` in the low
//! half.  Chunks beyond bit 63 read as zero (the high-order chunk is
//! zero-padded).  Recombination is the positional weighted sum of the chunk
//! values, the most-significant chunk carrying the highest weight.

use vstd::prelude::*;
use vstd::arithmetic::power2::*;
use vstd::arithmetic::div_mod::*;
use vstd::bits::*;
use crate::field::JoltField;

verus! {

/// Chunk `k` (counting from the least-significant end) of operand `z`, where
/// each chunk holds `b` bits: the bits `[k*b, (k+1)*b)` of `z`.
pub open spec fn chunk_of(z: u64, k: nat, b: nat) -> nat {
    (z as nat / pow2(k * b)) % pow2(b)
}

/// The chunk index at (most-significant-first) position `i` of `c`: the
/// matching `b`-bit group of `x` in the high half, the group of `y` in the
/// low half of a `2b`-bit integer.
pub open spec fn concat_index(x: u64, y: u64, i: nat, c: nat, b: nat) -> nat {
    chunk_of(x, (c - 1 - i) as nat, b) * pow2(b) + chunk_of(y, (c - 1 - i) as nat, b)
}

/// Well-formedness of the `(C, log2(M))` configuration: `log2(M)` even and at
/// least 2 (so the index splits evenly between the two operands), at least
/// one chunk, and enough chunk bits to cover both 64-bit operands.
pub open spec fn valid_params(c: nat, log_m: nat) -> bool {
    &&& log_m % 2 == 0
    &&& 2 <= log_m < 64
    &&& 1 <= c
    &&& c * (log_m / 2) >= 64
}

/// The positional weighted recombination of a (most-significant-first)
/// sequence of `b`-bit digit values: `sum vals[i] * 2^(b*(len-1-i))`.
pub open spec fn weighted_sum(vals: Seq<nat>, b: nat) -> nat
    decreases vals.len(),
{
    if vals.len() == 0 {
        0
    } else {
        vals.last() + pow2(b) * weighted_sum(vals.drop_last(), b)
    }
}

/// The most-significant-first sequence of the `c` chunks of `z`.
pub open spec fn chunk_seq(z: u64, c: nat, b: nat) -> Seq<nat> {
    Seq::new(c, |i: int| chunk_of(z, (c - 1 - i) as nat, b))
}

/// A chunk is a `b`-bit value.
pub proof fn lemma_chunk_lt(z: u64, k: nat, b: nat)
    ensures
        chunk_of(z, k, b) < pow2(b),
{
    lemma_pow2_pos(b);
    lemma_mod_division_less_than_divisor((z as nat / pow2(k * b)) as int, pow2(b) as int);
}

/// Dropping the most-significant chunk of `z` leaves the chunks of `z` with
/// its low `b` bits shifted out.
proof fn lemma_chunk_seq_step(z: u64, c: nat, b: nat)
    requires
        1 <= b,
        1 <= c,
    ensures
        chunk_seq(z, c, b).drop_last() =~= chunk_seq(((z as nat / pow2(b)) as u64), (c - 1) as nat, b),
        chunk_seq(z, c, b).last() == z as nat % pow2(b),
{
    lemma_pow2_pos(b);
    let zd = (z as nat / pow2(b)) as u64;
    assert(z as nat / pow2(b) <= z as nat) by {
        lemma_div_nonincreasing(z as int, pow2(b) as int);
    }
    assert(zd as nat == z as nat / pow2(b));
    assert forall|i: int| 0 <= i < c - 1 implies chunk_seq(z, c, b).drop_last()[i] == chunk_of(
        zd,
        (c - 2 - i) as nat,
        b,
    ) by {
        let k = (c - 2 - i) as nat;
        lemma_pow2_pos(k * b);
        lemma_div_denominator(z as int, pow2(b) as int, pow2(k * b) as int);
        lemma_pow2_adds(b, k * b);
        assert(b + k * b == (k + 1) * b) by (nonlinear_arith);
        assert(zd as nat / pow2(k * b) == z as nat / pow2((k + 1) * b));
    }
    assert(chunk_seq(z, c, b).last() == chunk_of(z, 0, b));
    assert(pow2(0) == 1) by {
        lemma2_to64();
    }
    assert(z as nat / 1 == z as nat);
}

/// The weighted sum of the `c` chunks of `z` recovers `z` modulo `2^(c*b)`.
pub proof fn lemma_chunk_reconstruction(z: u64, c: nat, b: nat)
    requires
        1 <= b,
    ensures
        weighted_sum(chunk_seq(z, c, b), b) == z as nat % pow2(c * b),
    decreases c,
{
    lemma_pow2_pos(b);
    lemma_pow2_pos(c * b);
    if c == 0 {
        assert(c * b == 0) by (nonlinear_arith)
            requires
                c == 0,
        ;
        assert(pow2(0) == 1) by {
            lemma2_to64();
        }
        assert(z as nat % 1 == 0) by {
            lemma_mod_division_less_than_divisor(z as int, 1);
        }
    } else {
        let zd = (z as nat / pow2(b)) as u64;
        lemma_chunk_seq_step(z, c, b);
        lemma_chunk_reconstruction(zd, (c - 1) as nat, b);
        assert(weighted_sum(chunk_seq(z, c, b), b) == z as nat % pow2(b) + pow2(b) * (zd as nat
            % pow2((c - 1) as nat * b)));
        lemma_pow2_pos((c - 1) as nat * b);
        lemma_mod_breakdown(z as int, pow2(b) as int, pow2((c - 1) as nat * b) as int);
        lemma_pow2_adds(b, (c - 1) as nat * b);
        assert(b + (c - 1) as nat * b == c * b) by (nonlinear_arith)
            requires
                c >= 1,
        ;
    }
}

/// With enough chunks to cover 64 bits, the weighted chunk sum recovers `z`
/// exactly.
pub proof fn lemma_chunk_reconstruction_full(z: u64, c: nat, b: nat)
    requires
        1 <= b,
        c * b >= 64,
    ensures
        weighted_sum(chunk_seq(z, c, b), b) == z as nat,
{
    lemma_chunk_reconstruction(z, c, b);
    lemma2_to64();
    if c * b > 64 {
        lemma_pow2_strictly_increases(64, c * b);
    }
    lemma_small_mod(z as nat, pow2(c * b));
}

/// Chunking commutes with the bitwise operations: the chunk of a bitwise
/// combination is the bitwise combination of the chunks.
pub proof fn lemma_chunk_of_bitops(x: u64, y: u64, k: nat, b: nat)
    requires
        1 <= b < 32,
    ensures
        chunk_of(x ^ y, k, b) == ((chunk_of(x, k, b) as u64) ^ (chunk_of(y, k, b) as u64)) as nat,
        chunk_of(x & y, k, b) == ((chunk_of(x, k, b) as u64) & (chunk_of(y, k, b) as u64)) as nat,
        chunk_of(x | y, k, b) == ((chunk_of(x, k, b) as u64) | (chunk_of(y, k, b) as u64)) as nat,
{
    lemma_pow2_pos(b);
    lemma_pow2_pos(k * b);
    if k * b >= 64 {
        lemma2_to64();
        if k * b > 64 {
            lemma_pow2_strictly_increases(64, k * b);
        }
        assert forall|z: u64| chunk_of(z, k, b) == 0 by {
            lemma_basic_div(z as int, pow2(k * b) as int);
            lemma_mod_division_less_than_divisor(0, pow2(b) as int);
            lemma_small_mod(0, pow2(b));
        }
        assert(0u64 ^ 0u64 == 0 && 0u64 & 0u64 == 0 && 0u64 | 0u64 == 0) by (bit_vector);
    } else {
        let s = (k * b) as u64;
        let m = low_bits_mask(b) as u64;
        assert forall|z: u64| chunk_of(z, k, b) == ((z >> s) & m) as nat by {
            lemma_u64_shr_is_div(z, s);
            lemma_u64_low_bits_mask_is_mod(z >> s, b);
            lemma_u64_pow2_no_overflow(b);
        }
        lemma_chunk_lt(x, k, b);
        lemma_chunk_lt(y, k, b);
        assert(((x >> s) & m) ^ ((y >> s) & m) == (((x ^ y) >> s) & m)) by (bit_vector)
            requires
                s < 64,
        ;
        assert(((x >> s) & m) & ((y >> s) & m) == (((x & y) >> s) & m)) by (bit_vector)
            requires
                s < 64,
        ;
        assert(((x >> s) & m) | ((y >> s) & m) == (((x | y) >> s) & m)) by (bit_vector)
            requires
                s < 64,
        ;
    }
}

/// The two operand groups can be read back off a concatenated chunk index.
pub proof fn lemma_concat_index_split(x: u64, y: u64, i: nat, c: nat, b: nat)
    requires
        1 <= b < 32,
        i < c,
    ensures
        (concat_index(x, y, i, c, b) / pow2(b)) % pow2(b) == chunk_of(x, (c - 1 - i) as nat, b),
        concat_index(x, y, i, c, b) % pow2(b) == chunk_of(y, (c - 1 - i) as nat, b),
        concat_index(x, y, i, c, b) < pow2(2 * b),
{
    let k = (c - 1 - i) as nat;
    let cx = chunk_of(x, k, b);
    let cy = chunk_of(y, k, b);
    lemma_chunk_lt(x, k, b);
    lemma_chunk_lt(y, k, b);
    lemma_pow2_pos(b);
    lemma_fundamental_div_mod_converse(
        (cx * pow2(b) + cy) as int,
        pow2(b) as int,
        cx as int,
        cy as int,
    );
    lemma_small_mod(cx, pow2(b));
    lemma_pow2_adds(b, b);
    assert(cx * pow2(b) + cy < pow2(b) * pow2(b)) by (nonlinear_arith)
        requires
            cx < pow2(b),
            cy < pow2(b),
            pow2(b) > 0,
    ;
}

/// Splits each 64-bit operand into `c` groups of `log_m / 2` bits apiece,
/// most-significant group first, and forms chunk `i`'s index by placing
/// `x`'s group in the high half and `y`'s group in the low half of a
/// `log_m`-bit integer.  Groups above bit 63 are zero.
pub fn chunk_and_concatenate_operands(x: u64, y: u64, c: usize, log_m: usize) -> (r: Vec<usize>)
    requires
        valid_params(c as nat, log_m as nat),
        pow2(log_m as nat) <= usize::MAX as nat,
    ensures
        r@.len() == c,
        forall|i: int|
            0 <= i < c as int ==> r@[i] as nat == concat_index(
                x,
                y,
                i as nat,
                c as nat,
                (log_m / 2) as nat,
            ),
        forall|i: int| 0 <= i < c as int ==> (r@[i] as nat) < pow2(log_m as nat),
{
    let b: usize = log_m / 2;
    proof {
        lemma_u64_pow2_no_overflow(b as nat);
        lemma_u64_shl_is_mul(1u64, b as u64);
        lemma_pow2_pos(b as nat);
    }
    let mask: u64 = (1u64 << (b as u64)) - 1;
    proof {
        assert(mask as nat == low_bits_mask(b as nat));
    }
    let mut out: Vec<usize> = Vec::new();
    let mut i: usize = 0;
    while i < c
        invariant
            valid_params(c as nat, log_m as nat),
            pow2(log_m as nat) <= usize::MAX as nat,
            b == log_m / 2,
            mask as nat == low_bits_mask(b as nat),
            i <= c,
            out@.len() == i,
            forall|j: int|
                0 <= j < i as int ==> out@[j] as nat == concat_index(
                    x,
                    y,
                    j as nat,
                    c as nat,
                    b as nat,
                ),
            forall|j: int| 0 <= j < i as int ==> (out@[j] as nat) < pow2(log_m as nat),
        decreases c - i,
    {
        let k: usize = c - 1 - i;
        proof {
            if k < 64 {
                assert((k as nat) * (b as nat) < 2048) by (nonlinear_arith)
                    requires
                        (k as nat) < 64,
                        (b as nat) < 32,
                ;
            }
        }
        let in_range: bool = k < 64 && k * b < 64;
        let left: u64 = if in_range {
            (x >> ((k * b) as u64)) & mask
        } else {
            0
        };
        let right: u64 = if in_range {
            (y >> ((k * b) as u64)) & mask
        } else {
            0
        };
        proof {
            lemma_pow2_pos(b as nat);
            lemma_pow2_pos(k as nat * b as nat);
            if in_range {
                let s = (k * b) as u64;
                lemma_u64_pow2_no_overflow(b as nat);
                lemma_u64_shr_is_div(x, s);
                lemma_u64_shr_is_div(y, s);
                lemma_u64_low_bits_mask_is_mod(x >> s, b as nat);
                lemma_u64_low_bits_mask_is_mod(y >> s, b as nat);
                assert(s as nat == k as nat * b as nat);
                assert((x >> s) as nat == x as nat / pow2(k as nat * b as nat));
                assert(left == (x >> s) % (pow2(b as nat) as u64));
                assert(right == (y >> s) % (pow2(b as nat) as u64));
            } else {
                if k >= 64 {
                    assert(k as nat * b as nat >= 64) by (nonlinear_arith)
                        requires
                            b as nat >= 1,
                            k as nat >= 64,
                    ;
                }
                assert(k as nat * b as nat >= 64);
                lemma2_to64();
                if k as nat * b as nat > 64 {
                    lemma_pow2_strictly_increases(64, k as nat * b as nat);
                }
                assert forall|z: u64| chunk_of(z, k as nat, b as nat) == 0 by {
                    lemma_basic_div(z as int, pow2(k as nat * b as nat) as int);
                    lemma_small_mod(0, pow2(b as nat));
                }
            }
            assert(left as nat == chunk_of(x, k as nat, b as nat));
            assert(right as nat == chunk_of(y, k as nat, b as nat));
            lemma_chunk_lt(x, k as nat, b as nat);
            lemma_chunk_lt(y, k as nat, b as nat);
        }
        let idx64: u64 = (left << (b as u64)) | right;
        proof {
            let bb = b as u64;
            lemma_u64_pow2_no_overflow(b as nat);
            lemma_u64_shl_is_mul(1u64, bb);
            assert((left as nat) < pow2(b as nat) && (right as nat) < pow2(b as nat));
            assert((left << bb) | right == (left << bb) + right && (left << bb) + right < (1u64 << (
            2 * bb))) by (bit_vector)
                requires
                    left < (1u64 << bb),
                    right < (1u64 << bb),
                    0 < bb < 32,
                    mask == (1u64 << bb) - 1,
                    left <= mask,
                    right <= mask,
            ;
            lemma_u64_pow2_no_overflow((2 * b) as nat);
            lemma_u64_shl_is_mul(1u64, (2 * b) as u64);
            assert(2 * b as nat == log_m as nat);
            lemma_pow2_pos(b as nat);
            lemma_pow2_adds(b as nat, b as nat);
            lemma_u64_pow2_no_overflow((2 * b) as nat);
            assert((left as nat) * pow2(b as nat) < pow2(b as nat) * pow2(b as nat))
                by (nonlinear_arith)
                requires
                    (left as nat) < pow2(b as nat),
                    pow2(b as nat) > 0,
            ;
            assert(idx64 as nat == left as nat * pow2(b as nat) + right as nat) by {
                lemma_u64_shl_is_mul(left, bb);
            }
            assert(idx64 as nat == concat_index(x, y, i as nat, c as nat, b as nat));
            assert((idx64 as nat) < pow2(log_m as nat));
        }
        out.push(idx64 as usize);
        i += 1;
    }
    out
}

/// Prepending a digit to a weighted sum adds it at the next higher weight.
proof fn lemma_weighted_sum_cons(a: nat, vs: Seq<nat>, b: nat)
    ensures
        weighted_sum(seq![a] + vs, b) == a * pow2(b * vs.len()) + weighted_sum(vs, b),
    decreases vs.len(),
{
    let s = seq![a] + vs;
    if vs.len() == 0 {
        assert(s =~= seq![a]);
        assert(s.len() == 1);
        assert(s.last() == a);
        assert(s.drop_last() =~= Seq::<nat>::empty());
        assert(weighted_sum(s.drop_last(), b) == 0);
        assert(pow2(b) * 0 == 0) by (nonlinear_arith);
        assert(weighted_sum(s, b) == a);
        assert(b * vs.len() == 0) by (nonlinear_arith)
            requires
                vs.len() == 0,
        ;
        lemma2_to64();
        assert(a * pow2(0) == a * 1 == a);
    } else {
        assert(s.last() == vs.last());
        assert(s.drop_last() =~= seq![a] + vs.drop_last());
        lemma_weighted_sum_cons(a, vs.drop_last(), b);
        assert(weighted_sum(s, b) == vs.last() + pow2(b) * (a * pow2(b * ((vs.len() - 1) as nat))
            + weighted_sum(vs.drop_last(), b)));
        lemma_pow2_adds(b, b * (vs.len() - 1) as nat);
        assert(pow2(b) * (a * pow2(b * ((vs.len() - 1) as nat)) + weighted_sum(vs.drop_last(), b))
            == a * (pow2(b) * pow2(b * (vs.len() - 1) as nat)) + pow2(b) * weighted_sum(
            vs.drop_last(),
            b,
        )) by (nonlinear_arith);
        assert(b + b * (vs.len() - 1) as nat == b * vs.len()) by (nonlinear_arith)
            requires
                vs.len() >= 1,
        ;
    }
}

/// Replacing every digit by one congruent modulo `p` leaves the weighted sum
/// unchanged modulo `p`.
pub proof fn lemma_weighted_sum_mod(vs1: Seq<nat>, vs2: Seq<nat>, b: nat, p: nat)
    requires
        p >= 1,
        vs1.len() == vs2.len(),
        forall|i: int| 0 <= i < vs1.len() ==> vs1[i] % p == vs2[i] % p,
    ensures
        weighted_sum(vs1, b) % p == weighted_sum(vs2, b) % p,
    decreases vs1.len(),
{
    if vs1.len() == 0 {
    } else {
        let f1 = vs1.drop_last();
        let f2 = vs2.drop_last();
        assert(forall|i: int| 0 <= i < f1.len() ==> f1[i] % p == f2[i] % p);
        lemma_weighted_sum_mod(f1, f2, b, p);
        let w1 = weighted_sum(f1, b);
        let w2 = weighted_sum(f2, b);
        let l1 = vs1.last();
        let l2 = vs2.last();
        assert((l1 + pow2(b) * w1) % p == (l2 + pow2(b) * w2) % p) by {
            lemma_add_mod_noop(l1 as int, (pow2(b) * w1) as int, p as int);
            lemma_add_mod_noop(l2 as int, (pow2(b) * w2) as int, p as int);
            lemma_mul_mod_noop_right(pow2(b) as int, w1 as int, p as int);
            lemma_mul_mod_noop_right(pow2(b) as int, w2 as int, p as int);
        }
    }
}

/// The weighted sum is homogeneous: scaling every digit scales the sum.
pub proof fn lemma_weighted_sum_scale(vs: Seq<nat>, k: nat, b: nat)
    ensures
        weighted_sum(Seq::new(vs.len(), |i: int| k * vs[i]), b) == k * weighted_sum(vs, b),
    decreases vs.len(),
{
    let s = Seq::new(vs.len(), |i: int| k * vs[i]);
    if vs.len() == 0 {
        assert(k * 0 == 0) by (nonlinear_arith);
    } else {
        assert(s.drop_last() =~= Seq::new(vs.drop_last().len(), |i: int| k * vs.drop_last()[i]));
        lemma_weighted_sum_scale(vs.drop_last(), k, b);
        assert(k * vs.last() + pow2(b) * (k * weighted_sum(vs.drop_last(), b)) == k * (vs.last()
            + pow2(b) * weighted_sum(vs.drop_last(), b))) by (nonlinear_arith);
    }
}

/// The weighted sum is additive: summing digit-wise sums the totals.
pub proof fn lemma_weighted_sum_add(vs1: Seq<nat>, vs2: Seq<nat>, b: nat)
    requires
        vs1.len() == vs2.len(),
    ensures
        weighted_sum(Seq::new(vs1.len(), |i: int| vs1[i] + vs2[i]), b) == weighted_sum(vs1, b)
            + weighted_sum(vs2, b),
    decreases vs1.len(),
{
    let s = Seq::new(vs1.len(), |i: int| vs1[i] + vs2[i]);
    if vs1.len() == 0 {
    } else {
        assert(s.drop_last() =~= Seq::new(
            vs1.drop_last().len(),
            |i: int| vs1.drop_last()[i] + vs2.drop_last()[i],
        ));
        lemma_weighted_sum_add(vs1.drop_last(), vs2.drop_last(), b);
        assert(pow2(b) * (weighted_sum(vs1.drop_last(), b) + weighted_sum(vs2.drop_last(), b))
            == pow2(b) * weighted_sum(vs1.drop_last(), b) + pow2(b) * weighted_sum(
            vs2.drop_last(),
            b,
        )) by (nonlinear_arith);
    }
}

/// Sums the `c` lookup values as positional `operand_bits`-bit digits,
/// most-significant first: `sum vals[i] * 2^(operand_bits*(c-1-i))`, in the
/// field.
pub fn concatenate_lookups<F: JoltField>(vals: &[F], c: usize, operand_bits: usize) -> (r: F)
    requires
        vals@.len() == c,
        operand_bits < 64,
        forall|i: int| 0 <= i < c as int ==> (#[trigger] vals@[i]).val() < F::modulus(),
    ensures
        r.val() == weighted_sum(Seq::new(c as nat, |i: int| vals@[i].val()), operand_bits as nat)
            % F::modulus(),
{
    proof {
        F::modulus_at_least_two();
    }
    let ghost vs = Seq::new(c as nat, |i: int| vals@[i].val());
    let b = operand_bits;
    let mut sum = F::zero();
    let mut weight = F::one();
    let shift = F::from_u64(1u64 << (b as u64));
    proof {
        lemma_u64_pow2_no_overflow(b as nat);
        lemma_u64_shl_is_mul(1u64, b as u64);
        assert(shift.val() == pow2(b as nat) % F::modulus());
        assert(vs.subrange(c as int, c as int) =~= Seq::<nat>::empty());
        assert(b as nat * 0 == 0) by (nonlinear_arith);
        lemma2_to64();
        lemma_small_mod(0, F::modulus());
    }
    let mut i: usize = 0;
    while i < c
        invariant
            vals@.len() == c,
            b < 64,
            forall|j: int| 0 <= j < c as int ==> (#[trigger] vals@[j]).val() < F::modulus(),
            vs == Seq::new(c as nat, |j: int| vals@[j].val()),
            F::modulus() >= 2,
            shift.val() == pow2(b as nat) % F::modulus(),
            i <= c,
            weight.val() == pow2(b as nat * i as nat) % F::modulus(),
            sum.val() == weighted_sum(vs.subrange(c - i, c as int), b as nat) % F::modulus(),
        decreases c - i,
    {
        let v = vals[c - 1 - i];
        let term = weight.mul(v);
        proof {
            let p = F::modulus();
            let wv = pow2(b as nat * i as nat);
            lemma_mul_mod_noop_left(wv as int, v.val() as int, p as int);
            assert(term.val() == (wv * v.val()) % p);
            let tail = vs.subrange(c - i, c as int);
            let ext = vs.subrange(c - i - 1, c as int);
            assert(ext =~= seq![vs[c - i - 1]] + tail);
            lemma_weighted_sum_cons(vs[c - i - 1], tail, b as nat);
            assert(tail.len() == i as nat);
            assert(vs[c - i - 1] == v.val());
            assert(weighted_sum(ext, b as nat) == v.val() * wv + weighted_sum(tail, b as nat))
                by (nonlinear_arith)
                requires
                    weighted_sum(ext, b as nat) == vs[c - i - 1] * pow2(b as nat * i as nat)
                        + weighted_sum(tail, b as nat),
                    vs[c - i - 1] == v.val(),
                    wv == pow2(b as nat * i as nat),
            ;
            lemma_add_mod_noop((v.val() * wv) as int, weighted_sum(tail, b as nat) as int, p as int);
            lemma_mul_mod_noop_general(wv as int, v.val() as int, p as int);
            assert((term.val() + sum.val()) % p == weighted_sum(ext, b as nat) % p) by {
                lemma_add_mod_noop(term.val() as int, sum.val() as int, p as int);
                lemma_mod_twice((wv * v.val()) as int, p as int);
                lemma_mod_twice(weighted_sum(tail, b as nat) as int, p as int);
                assert(wv * v.val() == v.val() * wv) by (nonlinear_arith);
            }
        }
        sum = sum.add(term);
        proof {
            let p = F::modulus();
            lemma_mul_mod_noop_general(
                pow2(b as nat * i as nat) as int,
                pow2(b as nat) as int,
                p as int,
            );
            lemma_pow2_adds(b as nat * i as nat, b as nat);
            assert(b as nat * i as nat + b as nat == b as nat * (i + 1) as nat) by (nonlinear_arith);
        }
        weight = weight.mul(shift);
        i += 1;
    }
    proof {
        assert(vs.subrange(0, c as int) =~= vs);
    }
    sum
}

} // verus!
