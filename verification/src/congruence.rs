//! Congruence modulo `m` and its compatibility with the ring operations.

use vstd::arithmetic::div_mod::{
    lemma_add_mod_noop, lemma_mod_twice, lemma_mul_mod_noop_general, lemma_sub_mod_noop,
};
use vstd::prelude::*;

verus! {

/// `x` and `y` leave the same remainder modulo `m`.
pub open spec fn congruent(x: int, y: int, m: int) -> bool {
    x % m == y % m
}

/// A value is congruent to its remainder.
pub proof fn lemma_congruent_residue(x: int, m: int)
    requires
        m > 0,
    ensures
        congruent(x % m, x, m),
{
    lemma_mod_twice(x, m);
}

/// Congruences can be added.
pub proof fn lemma_congruent_add(x1: int, y1: int, x2: int, y2: int, m: int)
    requires
        m > 0,
        congruent(x1, y1, m),
        congruent(x2, y2, m),
    ensures
        congruent(x1 + x2, y1 + y2, m),
{
    lemma_add_mod_noop(x1, x2, m);
    lemma_add_mod_noop(y1, y2, m);
}

/// Congruences can be subtracted.
pub proof fn lemma_congruent_sub(x1: int, y1: int, x2: int, y2: int, m: int)
    requires
        m > 0,
        congruent(x1, y1, m),
        congruent(x2, y2, m),
    ensures
        congruent(x1 - x2, y1 - y2, m),
{
    lemma_sub_mod_noop(x1, x2, m);
    lemma_sub_mod_noop(y1, y2, m);
}

/// Congruences can be multiplied.
pub proof fn lemma_congruent_mul(x1: int, y1: int, x2: int, y2: int, m: int)
    requires
        m > 0,
        congruent(x1, y1, m),
        congruent(x2, y2, m),
    ensures
        congruent(x1 * x2, y1 * y2, m),
{
    lemma_mul_mod_noop_general(x1, x2, m);
    lemma_mul_mod_noop_general(y1, y2, m);
}

} // verus!
