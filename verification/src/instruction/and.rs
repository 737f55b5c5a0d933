//! Bitwise AND.  The combination is a pure positional concatenation of the
//! per-chunk AND subtable entries: AND decomposes additively across
//! independent bit slices with no carry, so the combination polynomial is
//! linear.

use vstd::prelude::*;
use vstd::arithmetic::div_mod::lemma_fundamental_div_mod_converse;
use vstd::arithmetic::div_mod::lemma_mod_twice;
use crate::field::JoltField;
use crate::instruction_utils::chunk_and_concatenate_operands;
use crate::instruction_utils::chunk_of;
use crate::instruction_utils::chunk_seq;
use crate::instruction_utils::concat_index;
use crate::instruction_utils::concatenate_lookups;
use crate::instruction_utils::lemma_chunk_of_bitops;
use crate::instruction_utils::lemma_chunk_reconstruction_full;
use crate::instruction_utils::lemma_concat_index_split;
use crate::instruction_utils::lemma_weighted_sum_mod;
use crate::instruction_utils::weighted_sum;
use crate::subtable::Subtable;
use crate::subtable::AndSubtable;
use super::check_config;
use super::ConfigError;
use super::JoltInstruction;

verus! {

/// The AND instruction on an operand pair.
#[derive(Copy, Clone, Default, Debug, PartialEq, Eq, Structural)]
pub struct ANDInstruction(pub u64, pub u64);

impl JoltInstruction for ANDInstruction {
    open spec fn lookup_output(&self) -> u64 {
        self.0 & self.1
    }

    open spec fn index_at(&self, i: nat, c: nat, log_m: nat) -> nat {
        concat_index(self.0, self.1, i, c, log_m / 2)
    }

    open spec fn combine_spec(&self, vals: Seq<nat>, c: nat, log_m: nat) -> nat {
        weighted_sum(vals, log_m / 2)
    }

    open spec fn degree_spec(&self, c: nat) -> nat {
        1
    }

    open spec fn subtables_spec(&self) -> Seq<Subtable> {
        seq![Subtable::And(AndSubtable)]
    }

    fn to_indices(&self, c: usize, m: usize) -> (r: Result<Vec<usize>, ConfigError>) {
        match check_config(c, m) {
            Err(e) => Err(e),
            Ok(log_m) => Ok(chunk_and_concatenate_operands(self.0, self.1, c, log_m)),
        }
    }

    fn combine_lookups<F: JoltField>(&self, vals: &[F], c: usize, m: usize) -> (r: F) {
        let log_m = match check_config(c, m) {
            Ok(t) => t,
            Err(_) => {
                proof {
                    assert(false);
                }
                0
            },
        };
        proof {
            assert(self.subtables_spec().len() == 1);
            assert(1nat * c as nat == c as nat) by (nonlinear_arith);
            assert(vals@.len() == c);
        }
        let r = concatenate_lookups(vals, c, log_m / 2);
        proof {
            assert(Seq::new(c as nat, |i: int| vals@[i].val()) =~= Seq::new(
                vals@.len(),
                |i: int| vals@[i].val(),
            ));
        }
        r
    }

    fn g_poly_degree(&self, c: usize) -> (r: usize) {
        1
    }

    fn subtables(&self) -> (r: Vec<Subtable>) {
        let mut v: Vec<Subtable> = Vec::new();
        v.push(Subtable::And(AndSubtable::new()));
        proof {
            assert(v@ =~= self.subtables_spec());
        }
        v
    }

    proof fn lemma_round_trip(&self, c: nat, log_m: nat, p: nat) {
        let b = log_m / 2;
        let z = self.0 & self.1;
        let subs = self.subtables_spec();
        let entries = Seq::new(
            subs.len() * c,
            |j: int|
                subs[j / c as int].entry(self.index_at((j % c as int) as nat, c, log_m), log_m) % p,
        );
        let chunks = chunk_seq(z, c, b);
        assert(subs.len() == 1);
        assert(subs.len() * c == c) by (nonlinear_arith)
            requires
                subs.len() == 1,
        ;
        assert forall|j: int| 0 <= j < c as int implies entries[j] % p == chunks[j] % p by {
            lemma_fundamental_div_mod_converse(j, c as int, 0, j);
            assert(subs[0] == Subtable::And(AndSubtable));
            let k = (c - 1 - j) as nat;
            lemma_concat_index_split(self.0, self.1, j as nat, c, b);
            lemma_chunk_of_bitops(self.0, self.1, k, b);
            assert(entries[j] == chunk_of(z, k, b) % p);
            lemma_mod_twice(chunk_of(z, k, b) as int, p as int);
        }
        lemma_weighted_sum_mod(entries, chunks, b, p);
        lemma_chunk_reconstruction_full(z, c, b);
    }
}

} // verus!
