use ark_std::rand::RngCore;

use jolt_lookups::field::Fr255;
use jolt_lookups::field::JoltField;
use jolt_lookups::instruction::and::ANDInstruction;
use jolt_lookups::instruction::check_config;
use jolt_lookups::instruction::evaluate_instruction;
use jolt_lookups::instruction::log2_exact;
use jolt_lookups::instruction::or::ORInstruction;
use jolt_lookups::instruction::xor::XORInstruction;
use jolt_lookups::instruction::ConfigError;
use jolt_lookups::instruction::Instruction;
use jolt_lookups::instruction::JoltInstruction;
use jolt_lookups::instruction::Opcode;
use jolt_lookups::instruction_utils::chunk_and_concatenate_operands;
use jolt_lookups::instruction_utils::concatenate_lookups;
use jolt_lookups::subtable::Subtable;

#[test]
fn xor_instruction_e2e() {
    let mut rng = ark_std::test_rng();
    let c: usize = 8;
    let m: usize = 1 << 16;

    for _ in 0..256 {
        let (x, y) = (rng.next_u64(), rng.next_u64());
        let result = evaluate_instruction::<Fr255, _>(&XORInstruction(x, y), c, m).unwrap();
        assert_eq!(result, Fr255::from_u64(x ^ y));
    }
}

#[test]
fn and_instruction_e2e() {
    let mut rng = ark_std::test_rng();
    let c: usize = 8;
    let m: usize = 1 << 16;

    for _ in 0..256 {
        let (x, y) = (rng.next_u64(), rng.next_u64());
        let result = evaluate_instruction::<Fr255, _>(&ANDInstruction(x, y), c, m).unwrap();
        assert_eq!(result, Fr255::from_u64(x & y));
    }
}

#[test]
fn or_instruction_e2e() {
    let mut rng = ark_std::test_rng();
    let c: usize = 8;
    let m: usize = 1 << 16;

    for _ in 0..256 {
        let (x, y) = (rng.next_u64(), rng.next_u64());
        let result = evaluate_instruction::<Fr255, _>(&ORInstruction(x, y), c, m).unwrap();
        assert_eq!(result, Fr255::from_u64(x | y));
    }
}

#[test]
fn xor_zero_operands() {
    let result = evaluate_instruction::<Fr255, _>(&XORInstruction(0, 0), 8, 1 << 16).unwrap();
    assert_eq!(result, Fr255::from_u64(0));
}

#[test]
fn xor_all_ones_against_zero() {
    let result = evaluate_instruction::<Fr255, _>(&XORInstruction(0xFFFFFFFFFFFFFFFF, 0), 8, 1 << 16).unwrap();
    assert_eq!(result, Fr255::from_u64(0xFFFFFFFFFFFFFFFF));
}

#[test]
fn xor_complementary_nibbles() {
    let result = evaluate_instruction::<Fr255, _>(
        &XORInstruction(0x0F0F0F0F0F0F0F0F, 0xF0F0F0F0F0F0F0F0),
        8,
        1 << 16,
    )
    .unwrap();
    assert_eq!(result, Fr255::from_u64(0xFFFFFFFFFFFFFFFF));
}

#[test]
fn odd_log2_is_a_configuration_error() {
    let r = XORInstruction(1, 2).to_indices(8, 1 << 15);
    assert_eq!(r, Err(ConfigError::OddLogM));
}

#[test]
fn non_power_of_two_is_a_configuration_error() {
    let r = XORInstruction(1, 2).to_indices(8, 100);
    assert_eq!(r, Err(ConfigError::NotPowerOfTwo));
    let r = XORInstruction(1, 2).to_indices(8, 0);
    assert_eq!(r, Err(ConfigError::NotPowerOfTwo));
}

#[test]
fn zero_chunks_is_a_configuration_error() {
    let r = XORInstruction(1, 2).to_indices(0, 1 << 16);
    assert_eq!(r, Err(ConfigError::ZeroChunkCount));
}

#[test]
fn uncovered_operand_bits_are_a_configuration_error() {
    // 2 chunks of 8 bits each cover only 16 of the 64 operand bits.
    let r = XORInstruction(1, 2).to_indices(2, 1 << 16);
    assert_eq!(r, Err(ConfigError::OperandsNotCovered));
    // M = 1 gives zero-width operand groups.
    let r = XORInstruction(1, 2).to_indices(8, 1);
    assert_eq!(r, Err(ConfigError::OperandsNotCovered));
}

#[test]
fn to_indices_exact_values() {
    let x: u64 = 0x0123456789ABCDEF;
    let y: u64 = 0xFF00000000000001;
    let indices = XORInstruction(x, y).to_indices(8, 1 << 16).unwrap();
    let expected: Vec<usize> = vec![
        0x01FF, 0x2300, 0x4500, 0x6700, 0x8900, 0xAB00, 0xCD00, 0xEF01,
    ];
    assert_eq!(indices, expected);
}

#[test]
fn indices_stay_in_table_range() {
    let mut rng = ark_std::test_rng();
    for _ in 0..64 {
        let (x, y) = (rng.next_u64(), rng.next_u64());
        for &(c, m) in &[(8usize, 1usize << 16), (16, 1 << 8), (32, 1 << 4), (9, 1 << 16)] {
            let indices = XORInstruction(x, y).to_indices(c, m).unwrap();
            assert_eq!(indices.len(), c);
            assert!(indices.iter().all(|&i| i < m));
        }
    }
}

#[test]
fn extra_high_chunks_are_zero_padded() {
    // 9 chunks of 8 bits: 72 > 64, the top chunk reads zeros.
    let result = evaluate_instruction::<Fr255, _>(&XORInstruction(0xFFFFFFFFFFFFFFFF, 0), 9, 1 << 16).unwrap();
    assert_eq!(result, Fr255::from_u64(0xFFFFFFFFFFFFFFFF));
    let indices = XORInstruction(0xFFFFFFFFFFFFFFFF, 0).to_indices(9, 1 << 16).unwrap();
    assert_eq!(indices[0], 0);
}

#[test]
fn opcode_tags_are_distinct() {
    let tags = vec![
        Instruction::And(ANDInstruction(1, 2)).to_opcode(),
        Instruction::Or(ORInstruction(1, 2)).to_opcode(),
        Instruction::Xor(XORInstruction(1, 2)).to_opcode(),
    ];
    for i in 0..tags.len() {
        for j in 0..tags.len() {
            if i != j {
                assert_ne!(tags[i], tags[j]);
            }
        }
    }
}

#[test]
fn opcode_is_independent_of_operands() {
    assert_eq!(
        Instruction::Xor(XORInstruction(0, 0)).to_opcode(),
        Instruction::Xor(XORInstruction(u64::MAX, 17)).to_opcode()
    );
}

#[test]
fn repeated_calls_are_deterministic() {
    let instr = XORInstruction(0xDEADBEEF, 0xCAFEBABE);
    assert_eq!(instr.to_indices(8, 1 << 16), instr.to_indices(8, 1 << 16));
    assert_eq!(instr.subtables(), instr.subtables());
    assert_eq!(instr.g_poly_degree(8), instr.g_poly_degree(8));
    let vals: Vec<Fr255> = (0..8u64).map(Fr255::from_u64).collect();
    assert_eq!(
        instr.combine_lookups(&vals, 8, 1 << 16),
        instr.combine_lookups(&vals, 8, 1 << 16)
    );
}

#[test]
fn concatenation_degree_is_one() {
    assert_eq!(XORInstruction(1, 2).g_poly_degree(8), 1);
    assert_eq!(ANDInstruction(1, 2).g_poly_degree(8), 1);
    assert_eq!(ORInstruction(1, 2).g_poly_degree(8), 1);
    assert_eq!(Instruction::Xor(XORInstruction(1, 2)).g_poly_degree(8), 1);
}

#[test]
fn each_instruction_declares_one_subtable() {
    let subs = XORInstruction(1, 2).subtables();
    assert_eq!(subs, vec![Subtable::Xor(jolt_lookups::subtable::XorSubtable)]);
    assert_eq!(ANDInstruction(1, 2).subtables().len(), 1);
    assert_eq!(ORInstruction(1, 2).subtables().len(), 1);
}

#[test]
fn registry_dispatch_matches_variant() {
    let x: u64 = 0x1122334455667788;
    let y: u64 = 0x8877665544332211;
    let via_enum = evaluate_instruction::<Fr255, _>(&Instruction::And(ANDInstruction(x, y)), 8, 1 << 16).unwrap();
    let direct = evaluate_instruction::<Fr255, _>(&ANDInstruction(x, y), 8, 1 << 16).unwrap();
    assert_eq!(via_enum, direct);
    assert_eq!(via_enum, Fr255::from_u64(x & y));
}

#[test]
fn subtable_entries_answer_the_bitwise_op() {
    // Index 0xAB3C splits into halves 0xAB and 0x3C.
    let xor: Fr255 = Subtable::Xor(jolt_lookups::subtable::XorSubtable).evaluate(0xAB3C, 16);
    assert_eq!(xor, Fr255::from_u64(0xAB ^ 0x3C));
    let and: Fr255 = Subtable::And(jolt_lookups::subtable::AndSubtable).evaluate(0xAB3C, 16);
    assert_eq!(and, Fr255::from_u64(0xAB & 0x3C));
    let or: Fr255 = Subtable::Or(jolt_lookups::subtable::OrSubtable).evaluate(0xAB3C, 16);
    assert_eq!(or, Fr255::from_u64(0xAB | 0x3C));
}

#[test]
fn log2_exact_agrees_with_powers_of_two() {
    assert_eq!(log2_exact(1), Some(0));
    assert_eq!(log2_exact(2), Some(1));
    assert_eq!(log2_exact(1 << 16), Some(16));
    assert_eq!(log2_exact(0), None);
    assert_eq!(log2_exact(3), None);
}

#[test]
fn check_config_accepts_the_standard_parameters() {
    assert_eq!(check_config(8, 1 << 16), Ok(16));
    assert_eq!(check_config(16, 1 << 8), Ok(8));
}

#[test]
fn chunking_utility_concatenates_operand_groups() {
    let indices = chunk_and_concatenate_operands(0xFF, 0x01, 8, 16);
    assert_eq!(indices, vec![0, 0, 0, 0, 0, 0, 0, 0xFF01]);
}

#[test]
fn concatenate_lookups_weights_digits_positionally() {
    let vals: Vec<Fr255> = vec![
        Fr255::from_u64(0x12),
        Fr255::from_u64(0x34),
        Fr255::from_u64(0x56),
    ];
    let r: Fr255 = concatenate_lookups(&vals, 3, 8);
    assert_eq!(r, Fr255::from_u64(0x123456));
}

#[test]
fn field_ops_compute_in_the_scalar_field() {
    let five = Fr255::from_u64(5);
    let seven = Fr255::from_u64(7);
    assert_eq!(five.add(seven), Fr255::from_u64(12));
    assert_eq!(five.mul(seven), Fr255::from_u64(35));
    assert_eq!(Fr255::zero().add(five), five);
    assert_eq!(Fr255::one().mul(seven), seven);
    // A product whose integer value overflows a machine word.
    let big = Fr255::from_u64(u64::MAX);
    let sq = big.mul(big);
    assert_ne!(sq, big);
    assert_eq!(sq.add(big).add(big).add(Fr255::one()), big.add(Fr255::one()).mul(big.add(Fr255::one())));
}

#[test]
fn evaluate_instruction_rejects_bad_configurations() {
    let r: Result<Fr255, ConfigError> = evaluate_instruction(&XORInstruction(1, 2), 8, 1 << 15);
    assert_eq!(r, Err(ConfigError::OddLogM));
}

#[test]
fn field_mul_reduces_past_the_modulus() {
    // (2^64 - 1)^4 exceeds the scalar-field order; the expected canonical
    // representative was computed independently.
    let big = Fr255::from_u64(u64::MAX);
    let fourth = big.mul(big).mul(big).mul(big);
    let expected = Fr255 {
        l0: 0xd6ec31748d98951e,
        l1: 0xc6ef5bf4737dcf6c,
        l2: 0x4,
        l3: 0xffffffffffffffc,
    };
    assert_eq!(fourth, expected);
}
