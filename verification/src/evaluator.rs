//! Evaluation of the recurrence against a memo table.
//!
//! The recurrence nests far too deeply for the call stack, so the evaluator
//! keeps the triples whose value is still owed on a stack of its own and
//! works it off in a loop. What ends up in the table is exactly what the
//! recursive description of the algorithm would leave there.

use crate::memo::{sound, Memo};
use crate::recurrence::{energy, is_word, lemma_energy_is_word, MODULUS};
use vstd::prelude::*;
use vstd::set_lib::{lemma_int_range, lemma_len_subset, set_int_range};

verus! {

/// The table that evaluating `(x, y, k)` against the table `m` leaves
/// behind.
///
/// A triple already in `m` is a hit and changes nothing. Otherwise the
/// triples that the recurrence consults are evaluated first, in the order
/// in which it consults them, each against the table left by the one
/// before, and then `(x, y, k)` itself is entered.
pub open spec fn table_after(m: Map<(nat, nat, nat), nat>, x: nat, y: nat, k: nat) -> Map<
    (nat, nat, nat),
    nat,
>
    decreases x, y,
{
    if m.contains_key((x, y, k)) {
        m
    } else if x == 0 {
        m.insert((x, y, k), energy(x, y, k))
    } else if y == 0 {
        table_after(m, (x - 1) as nat, k, k).insert((x, y, k), energy(x, y, k))
    } else {
        let left = table_after(m, x, (y - 1) as nat, k);
        let below = table_after(left, (x - 1) as nat, energy(x, (y - 1) as nat, k), k);
        below.insert((x, y, k), energy(x, y, k))
    }
}

/// Whether the pair `(x1, y1)` comes before `(x2, y2)` or is the same pair,
/// rows first.
pub open spec fn at_most(x1: nat, y1: nat, x2: nat, y2: nat) -> bool {
    x1 < x2 || (x1 == x2 && y1 <= y2)
}

/// Whether `after` holds every entry of `before`, unchanged.
pub open spec fn extends(after: Map<(nat, nat, nat), nat>, before: Map<(nat, nat, nat), nat>) -> bool {
    forall|t: (nat, nat, nat)| #[trigger]
        before.contains_key(t) ==> after.contains_key(t) && after[t] == before[t]
}

/// Whether every entry of `after` that `before` lacks is keyed by `k` and
/// by a pair no later than `(x, y)`, and holds the recurrence's value.
pub open spec fn adds_only_below(
    after: Map<(nat, nat, nat), nat>,
    before: Map<(nat, nat, nat), nat>,
    x: nat,
    y: nat,
    k: nat,
) -> bool {
    forall|t: (nat, nat, nat)| #[trigger]
        after.contains_key(t) && !before.contains_key(t) ==> t.2 == k && at_most(t.0, t.1, x, y)
            && after[t] == energy(t.0, t.1, t.2)
}

/// What an evaluation does to the table: the evaluated triple is in it
/// afterwards, nothing that was there is lost or changed, and whatever is
/// new is keyed by the same `k` and by a pair no later than `(x, y)`, and
/// holds the recurrence's value.
pub proof fn lemma_table_after(m: Map<(nat, nat, nat), nat>, x: nat, y: nat, k: nat)
    ensures
        table_after(m, x, y, k).contains_key((x, y, k)),
        extends(table_after(m, x, y, k), m),
        adds_only_below(table_after(m, x, y, k), m, x, y, k),
    decreases x, y,
{
    if m.contains_key((x, y, k)) {
    } else if x == 0 {
    } else if y == 0 {
        lemma_table_after(m, (x - 1) as nat, k, k);
    } else {
        let left = table_after(m, x, (y - 1) as nat, k);
        lemma_table_after(m, x, (y - 1) as nat, k);
        lemma_table_after(left, (x - 1) as nat, energy(x, (y - 1) as nat, k), k);
    }
}

/// Memoization is transparent: once `(x, y, k)` has been evaluated against
/// a sound table, the table holds the recurrence's value at that triple,
/// and evaluating the triple again against the table left behind changes
/// nothing.
pub proof fn law_second_evaluation_is_a_hit(m: Map<(nat, nat, nat), nat>, x: nat, y: nat, k: nat)
    requires
        sound(m),
        is_word(x),
        is_word(y),
        is_word(k),
    ensures
        table_after(m, x, y, k).contains_key((x, y, k)),
        table_after(m, x, y, k)[(x, y, k)] == energy(x, y, k),
        table_after(table_after(m, x, y, k), x, y, k) == table_after(m, x, y, k),
{
    lemma_table_after(m, x, y, k);
}

/// An evaluation adds finitely many entries.
pub proof fn lemma_table_after_finite(m: Map<(nat, nat, nat), nat>, x: nat, y: nat, k: nat)
    requires
        m.dom().finite(),
    ensures
        table_after(m, x, y, k).dom().finite(),
    decreases x, y,
{
    if m.contains_key((x, y, k)) {
    } else if x == 0 {
    } else if y == 0 {
        lemma_table_after_finite(m, (x - 1) as nat, k, k);
    } else {
        let left = table_after(m, x, (y - 1) as nat, k);
        lemma_table_after_finite(m, x, (y - 1) as nat, k);
        lemma_table_after_finite(left, (x - 1) as nat, energy(x, (y - 1) as nat, k), k);
    }
}

/// Whether evaluating `(x, y, k)` against `m` stays within `limit` entries:
/// either it is a hit, or the table it leaves has no more than that many.
/// Without a limit every evaluation does.
pub open spec fn fits(
    m: Map<(nat, nat, nat), nat>,
    x: nat,
    y: nat,
    k: nat,
    limit: Option<usize>,
) -> bool {
    match limit {
        None => true,
        Some(max) => m.contains_key((x, y, k)) || table_after(m, x, y, k).dom().len() <= max,
    }
}

/// Whether `(cx, cy)` is the triple that an evaluation of `(x, y, k)`
/// against `m` has to evaluate next, before it can enter `(x, y, k)`.
spec fn owed_next(m: Map<(nat, nat, nat), nat>, x: nat, y: nat, k: nat, cx: nat, cy: nat) -> bool {
    &&& x > 0
    &&& !m.contains_key((cx, cy, k))
    &&& if y == 0 {
        cx == x - 1 && cy == k
    } else if !m.contains_key((x, (y - 1) as nat, k)) {
        cx == x && cy == y - 1
    } else {
        cx == x - 1 && cy == energy(x, (y - 1) as nat, k)
    }
}

/// Evaluating first the triple that is owed next and then `(x, y, k)`
/// leaves the same table as evaluating `(x, y, k)` at once.
proof fn lemma_owed_first(m: Map<(nat, nat, nat), nat>, x: nat, y: nat, k: nat, cx: nat, cy: nat)
    requires
        !m.contains_key((x, y, k)),
        owed_next(m, x, y, k, cx, cy),
    ensures
        table_after(table_after(m, cx, cy, k), x, y, k) == table_after(m, x, y, k),
{
    let m1 = table_after(m, cx, cy, k);
    lemma_table_after(m, cx, cy, k);
    assert(table_after(m1, cx, cy, k) == m1);
    if y == 0 {
    } else if !m.contains_key((x, (y - 1) as nat, k)) {
    } else {
        let c1 = (x, (y - 1) as nat, k);
        assert(table_after(m, c1.0, c1.1, k) == m);
        assert(table_after(m1, c1.0, c1.1, k) == m1);
    }
}

/// Once nothing is owed any more, evaluating `(x, y, k)` only enters it.
proof fn lemma_nothing_owed(m: Map<(nat, nat, nat), nat>, x: nat, y: nat, k: nat)
    requires
        !m.contains_key((x, y, k)),
        x == 0 || (y == 0 && m.contains_key(((x - 1) as nat, k, k))) || (y > 0 && m.contains_key(
            (x, (y - 1) as nat, k),
        ) && m.contains_key(((x - 1) as nat, energy(x, (y - 1) as nat, k), k))),
    ensures
        table_after(m, x, y, k) == m.insert((x, y, k), energy(x, y, k)),
{
    if x == 0 {
    } else if y == 0 {
        assert(table_after(m, (x - 1) as nat, k, k) == m);
    } else {
        assert(table_after(m, x, (y - 1) as nat, k) == m);
        assert(table_after(m, (x - 1) as nat, energy(x, (y - 1) as nat, k), k) == m);
    }
}

/// The table left when the pending pairs are evaluated against `m` one
/// after the other, the last of them first.
spec fn unwind(m: Map<(nat, nat, nat), nat>, pending: Seq<(u16, u16)>, k: nat) -> Map<
    (nat, nat, nat),
    nat,
>
    decreases pending.len(),
{
    if pending.len() == 0 {
        m
    } else {
        let top = pending.last();
        unwind(table_after(m, top.0 as nat, top.1 as nat, k), pending.drop_last(), k)
    }
}

/// Whether the pending pairs stand in strictly descending order of rank,
/// from the bottom of the stack to its top.
spec fn descending(pending: Seq<(u16, u16)>) -> bool {
    forall|i: int, j: int|
        0 <= i < j < pending.len() ==> rank((#[trigger] pending[i]).0 as int, pending[i].1 as int)
            > rank((#[trigger] pending[j]).0 as int, pending[j].1 as int)
}

/// Whether `m` has no entry at `k` for any of the pending pairs.
spec fn all_open(m: Map<(nat, nat, nat), nat>, pending: Seq<(u16, u16)>, k: nat) -> bool {
    forall|i: int|
        0 <= i < pending.len() ==> !m.contains_key(
            ((#[trigger] pending[i]).0 as nat, pending[i].1 as nat, k),
        )
}

/// Whether `m` has an entry at `k` for each of the pending pairs.
spec fn all_entered(m: Map<(nat, nat, nat), nat>, pending: Seq<(u16, u16)>, k: nat) -> bool {
    forall|i: int|
        0 <= i < pending.len() ==> m.contains_key(
            ((#[trigger] pending[i]).0 as nat, pending[i].1 as nat, k),
        )
}

/// Working off the pending pairs loses nothing, changes nothing, and
/// enters each of them.
proof fn lemma_unwind(m: Map<(nat, nat, nat), nat>, pending: Seq<(u16, u16)>, k: nat)
    ensures
        extends(unwind(m, pending, k), m),
        all_entered(unwind(m, pending, k), pending, k),
    decreases pending.len(),
{
    if pending.len() > 0 {
        let top = pending.last();
        let rest = pending.drop_last();
        let m1 = table_after(m, top.0 as nat, top.1 as nat, k);
        lemma_table_after(m, top.0 as nat, top.1 as nat, k);
        lemma_unwind(m1, rest, k);
        assert forall|i: int| 0 <= i < pending.len() implies unwind(m, pending, k).contains_key(
            ((#[trigger] pending[i]).0 as nat, pending[i].1 as nat, k),
        ) by {
            if i < pending.len() - 1 {
                assert(rest[i] == pending[i]);
            }
        }
    }
}

/// Putting the pair that the top of the stack owes next on the stack
/// changes nothing in what working off the stack leaves, and keeps the
/// stack in order and its pairs open.
proof fn lemma_push_owed(
    m: Map<(nat, nat, nat), nat>,
    pending: Seq<(u16, u16)>,
    k: nat,
    owed: (u16, u16),
)
    requires
        pending.len() > 0,
        all_open(m, pending, k),
        descending(pending),
        owed_next(
            m,
            pending.last().0 as nat,
            pending.last().1 as nat,
            k,
            owed.0 as nat,
            owed.1 as nat,
        ),
        rank(owed.0 as int, owed.1 as int) < rank(
            pending.last().0 as int,
            pending.last().1 as int,
        ),
    ensures
        unwind(m, pending.push(owed), k) == unwind(m, pending, k),
        all_open(m, pending.push(owed), k),
        descending(pending.push(owed)),
{
    let top = pending.last();
    let grown = pending.push(owed);
    let first = table_after(m, owed.0 as nat, owed.1 as nat, k);
    lemma_owed_first(m, top.0 as nat, top.1 as nat, k, owed.0 as nat, owed.1 as nat);
    assert(grown.drop_last() =~= pending);
    assert(unwind(first, pending, k) == unwind(
        table_after(first, top.0 as nat, top.1 as nat, k),
        pending.drop_last(),
        k,
    ));
}

/// A finite table that extends `m` and also holds an entry for each of the
/// pending pairs, of which `m` holds none, has room for all of them.
proof fn lemma_room(
    m: Map<(nat, nat, nat), nat>,
    goal: Map<(nat, nat, nat), nat>,
    pending: Seq<(u16, u16)>,
    k: nat,
)
    requires
        goal.dom().finite(),
        extends(goal, m),
        all_entered(goal, pending, k),
        all_open(m, pending, k),
        descending(pending),
    ensures
        m.dom().len() + pending.len() <= goal.dom().len(),
    decreases pending.len(),
{
    if pending.len() == 0 {
        lemma_len_subset(m.dom(), goal.dom());
    } else {
        let last = pending.last();
        let rest = pending.drop_last();
        let t = (last.0 as nat, last.1 as nat, k);
        let smaller = goal.remove(t);
        lemma_room(m, smaller, rest, k);
    }
}

/// The place of a pair in the order in which pairs are evaluated.
spec fn rank(x: int, y: int) -> int {
    x * 32768 + y
}

/// The ranks, below `bound`, of the pairs that `m` has no entry for at
/// `k`.
spec fn open_ranks(m: Map<(nat, nat, nat), nat>, k: nat, bound: int) -> Set<int> {
    Set::new(
        |r: int| 0 <= r < bound && !m.contains_key(((r / 32768) as nat, (r % 32768) as nat, k)),
    )
}

proof fn lemma_open_ranks_finite(m: Map<(nat, nat, nat), nat>, k: nat, bound: int)
    requires
        0 <= bound,
    ensures
        open_ranks(m, k, bound).finite(),
{
    lemma_int_range(0, bound);
    lemma_len_subset(open_ranks(m, k, bound), set_int_range(0, bound));
}

/// Entering a pair that was open closes exactly its rank.
proof fn lemma_open_ranks_insert(
    m: Map<(nat, nat, nat), nat>,
    k: nat,
    bound: int,
    x: nat,
    y: nat,
    v: nat,
)
    requires
        y < 32768,
        0 <= rank(x as int, y as int) < bound,
        !m.contains_key((x, y, k)),
    ensures
        open_ranks(m.insert((x, y, k), v), k, bound).finite(),
        open_ranks(m.insert((x, y, k), v), k, bound).len() < open_ranks(m, k, bound).len(),
{
    let before = open_ranks(m, k, bound);
    let after = open_ranks(m.insert((x, y, k), v), k, bound);
    let r = rank(x as int, y as int);
    lemma_open_ranks_finite(m, k, bound);
    assert(after =~= before.remove(r));
}

/// The failure of an evaluation that would have needed more memo entries
/// than it was allowed.
#[derive(Clone, Copy, Debug, PartialEq, Eq, Structural)]
pub struct ResourceExhausted {
    /// The parameter whose evaluation was given up.
    pub k: u16,
    /// The number of entries that the table was allowed to hold.
    pub limit: usize,
}

/// Evaluates the recurrence at `(x, y, k)` against `cache`. Where there is
/// a limit, the entries of the table and the pairs still pending never
/// number more than the limit together. Returns the value and whether the
/// evaluation ran to its end; the value means nothing where it did not.
fn evaluate(x: u16, y: u16, k: u16, cache: &mut Memo, limit: Option<usize>) -> (outcome: (
    u16,
    bool,
))
    requires
        is_word(x as nat),
        is_word(y as nat),
        is_word(k as nat),
        old(cache).wf(),
    ensures
        final(cache).wf(),
        outcome.1 == fits(old(cache)@, x as nat, y as nat, k as nat, limit),
        outcome.1 ==> outcome.0 == energy(x as nat, y as nat, k as nat) && final(cache)@
            == table_after(old(cache)@, x as nat, y as nat, k as nat),
        extends(final(cache)@, old(cache)@),
        extends(table_after(old(cache)@, x as nat, y as nat, k as nat), final(cache)@),
        limit matches Some(max) ==> final(cache)@ == old(cache)@ || final(cache)@.dom().len()
            <= max,
{
    let ghost start = cache@;
    let ghost goal = table_after(start, x as nat, y as nat, k as nat);
    let ghost bound: int = (x + 1) * 32768;
    proof {
        lemma_table_after(start, x as nat, y as nat, k as nat);
        lemma_table_after_finite(start, x as nat, y as nat, k as nat);
    }
    match cache.get(x, y, k) {
        Some(v) => {
            return (v, true);
        },
        None => {},
    }
    let mut pending: Vec<(u16, u16)> = Vec::new();
    pending.push((x, y));
    proof {
        lemma_open_ranks_finite(start, k as nat, bound);
        assert(unwind(goal, pending@.drop_last(), k as nat) == goal);
    }
    let no_room: bool = match limit {
        Some(max) => cache.len() >= max,
        None => false,
    };
    if no_room {
        proof {
            lemma_unwind(start, pending@, k as nat);
            lemma_room(start, goal, pending@, k as nat);
        }
        return (0, false);
    }
    let mut result: u16 = 0;
    while pending.len() > 0
        invariant
            is_word(x as nat),
            is_word(y as nat),
            is_word(k as nat),
            bound == (x + 1) * 32768,
            start == old(cache)@,
            goal == table_after(start, x as nat, y as nat, k as nat),
            goal.dom().finite(),
            !start.contains_key((x as nat, y as nat, k as nat)),
            cache.wf(),
            extends(cache@, start),
            limit matches Some(max) ==> cache@.dom().len() + pending.len() <= max,
            forall|i: int|
                0 <= i < pending.len() ==> (#[trigger] pending[i]).0 <= x && pending[i].1 < 32768,
            all_open(cache@, pending@, k as nat),
            descending(pending@),
            unwind(cache@, pending@, k as nat) == goal,
            pending.len() > 0 ==> pending[0] == (x, y),
            pending.len() == 0 ==> result == energy(x as nat, y as nat, k as nat),
            open_ranks(cache@, k as nat, bound).finite(),
        decreases
            open_ranks(cache@, k as nat, bound).len(),
            (if pending.len() > 0 {
                rank(pending@.last().0 as int, pending@.last().1 as int)
            } else {
                0
            }),
    {
        let n: usize = pending.len();
        let top: (u16, u16) = pending[n - 1];
        let fx: u16 = top.0;
        let fy: u16 = top.1;
        let ghost before = cache@;
        let ghost stack = pending@;
        proof {
            lemma_unwind(before, stack, k as nat);
            assert(unwind(before, stack, k as nat) == unwind(
                table_after(before, fx as nat, fy as nat, k as nat),
                stack.drop_last(),
                k as nat,
            ));
        }
        // The value of the top pair, once nothing is owed for it any more.
        let mut ready: Option<u16> = None;
        // The pair that is owed next, otherwise.
        let mut owed: (u16, u16) = top;
        if fx == 0 {
            ready = Some((fy + 1) % MODULUS);
        } else if fy == 0 {
            match cache.get(fx - 1, k, k) {
                Some(v) => {
                    ready = Some(v);
                },
                None => {
                    owed = (fx - 1, k);
                },
            }
        } else {
            match cache.get(fx, fy - 1, k) {
                None => {
                    owed = (fx, fy - 1);
                },
                Some(left) => {
                    proof {
                        lemma_energy_is_word(fx as nat, (fy - 1) as nat, k as nat);
                    }
                    match cache.get(fx - 1, left, k) {
                        None => {
                            owed = (fx - 1, left);
                        },
                        Some(v) => {
                            ready = Some(v);
                        },
                    }
                },
            }
        }
        match ready {
            Some(v) => {
                proof {
                    lemma_nothing_owed(before, fx as nat, fy as nat, k as nat);
                    lemma_open_ranks_insert(before, k as nat, bound, fx as nat, fy as nat, v as nat);
                }
                cache.insert(fx, fy, k, v);
                pending.pop();
                result = v;
            },
            None => {
                let ghost grown = stack.push(owed);
                proof {
                    lemma_push_owed(before, stack, k as nat, owed);
                }
                let full: bool = match limit {
                    Some(max) => max - cache.len() <= n,
                    None => false,
                };
                if full {
                    proof {
                        lemma_unwind(before, grown, k as nat);
                        lemma_room(before, goal, grown, k as nat);
                    }
                    return (0, false);
                }
                pending.push(owed);
            },
        }
    }
    (result, true)
}

/// Evaluates the recurrence at `(x, y, k)` against the memo table `cache`.
///
/// A triple that the table holds is answered from it, and the table is left
/// as it was. Otherwise the triples that the recurrence consults are
/// evaluated first and entered, and `(x, y, k)` is entered last.
pub fn energy_level(x: u16, y: u16, k: u16, cache: &mut Memo) -> (result: u16)
    requires
        is_word(x as nat),
        is_word(y as nat),
        is_word(k as nat),
        old(cache).wf(),
    ensures
        result == energy(x as nat, y as nat, k as nat),
        final(cache).wf(),
        final(cache)@ == table_after(old(cache)@, x as nat, y as nat, k as nat),
        final(cache)@.contains_key((x as nat, y as nat, k as nat)),
        extends(final(cache)@, old(cache)@),
        old(cache)@.contains_key((x as nat, y as nat, k as nat)) ==> final(cache)@ == old(cache)@,
{
    proof {
        lemma_table_after(cache@, x as nat, y as nat, k as nat);
    }
    let outcome: (u16, bool) = evaluate(x, y, k, cache, None);
    outcome.0
}

/// Evaluates the recurrence at `(x, y, k)` against `cache` as
/// [`energy_level`] does, but gives up rather than let the table grow
/// beyond `max_entries` entries.
///
/// The evaluation succeeds exactly where it [`fits`]. Where it does not,
/// the table keeps what had been entered by then: all of it sound, and all
/// of it part of what the full evaluation would have left.
pub fn energy_level_within(x: u16, y: u16, k: u16, cache: &mut Memo, max_entries: usize) -> (result:
    Result<u16, ResourceExhausted>)
    requires
        is_word(x as nat),
        is_word(y as nat),
        is_word(k as nat),
        old(cache).wf(),
    ensures
        final(cache).wf(),
        match result {
            Ok(v) => fits(old(cache)@, x as nat, y as nat, k as nat, Some(max_entries)) && v
                == energy(x as nat, y as nat, k as nat) && final(cache)@ == table_after(
                old(cache)@,
                x as nat,
                y as nat,
                k as nat,
            ),
            Err(e) => !fits(old(cache)@, x as nat, y as nat, k as nat, Some(max_entries)) && e
                == (ResourceExhausted { k, limit: max_entries }),
        },
        extends(final(cache)@, old(cache)@),
        extends(table_after(old(cache)@, x as nat, y as nat, k as nat), final(cache)@),
        final(cache)@ == old(cache)@ || final(cache)@.dom().len() <= max_entries,
{
    let outcome: (u16, bool) = evaluate(x, y, k, cache, Some(max_entries));
    if outcome.1 {
        Ok(outcome.0)
    } else {
        Err(ResourceExhausted { k, limit: max_entries })
    }
}

} // verus!
