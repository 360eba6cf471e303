//! The recurrence as a mathematical function.
//!
//! Every argument and every result is a *word*: a natural number below
//! [`MODULUS`]. The only arithmetic that can leave that range is the
//! successor in the base case, and it wraps.

use vstd::prelude::*;

verus! {

/// Number of distinct words. Arithmetic on words wraps at this bound.
pub const MODULUS: u16 = 32768;

/// Whether `v` is a word.
pub open spec fn is_word(v: nat) -> bool {
    v < MODULUS
}

/// The recurrence: `energy(0, y, k)` is the wrapped successor of `y`,
/// `energy(x, 0, k)` reduces to `energy(x - 1, k, k)`, and every other
/// `energy(x, y, k)` feeds `energy(x, y - 1, k)` into row `x - 1`.
pub open spec fn energy(x: nat, y: nat, k: nat) -> nat
    decreases x, y,
{
    if x == 0 {
        (y + 1) % (MODULUS as nat)
    } else if y == 0 {
        energy((x - 1) as nat, k, k)
    } else {
        energy((x - 1) as nat, energy(x, (y - 1) as nat, k), k)
    }
}

/// Every value of the recurrence is a word, whatever the arguments.
pub proof fn lemma_energy_is_word(x: nat, y: nat, k: nat)
    ensures
        is_word(energy(x, y, k)),
    decreases x, y,
{
    if x == 0 {
    } else if y == 0 {
        lemma_energy_is_word((x - 1) as nat, k, k);
    } else {
        lemma_energy_is_word((x - 1) as nat, energy(x, (y - 1) as nat, k), k);
    }
}

/// Base case: in row zero the recurrence is the successor modulo
/// [`MODULUS`].
pub proof fn law_base_case(y: nat, k: nat)
    requires
        is_word(y),
        is_word(k),
    ensures
        energy(0, y, k) == (y + 1) % (MODULUS as nat),
        y + 1 < MODULUS ==> energy(0, y, k) == y + 1,
        y + 1 == MODULUS ==> energy(0, y, k) == 0,
{
}

/// Reduction in `x`: at `y == 0` a positive row `x` takes the value of row
/// `x - 1` at `y == k`.
pub proof fn law_reduction_in_x(x: nat, k: nat)
    requires
        is_word(x),
        is_word(k),
        x > 0,
    ensures
        energy(x, 0, k) == energy((x - 1) as nat, k, k),
{
}

/// General step: at positive `x` and `y` the recurrence evaluates its own
/// row one column to the left and feeds the result into the row below.
pub proof fn law_general_step(x: nat, y: nat, k: nat)
    requires
        is_word(x),
        is_word(y),
        is_word(k),
        x > 0,
        y > 0,
    ensures
        energy(x, y, k) == energy((x - 1) as nat, energy(x, (y - 1) as nat, k), k),
{
}

} // verus!
