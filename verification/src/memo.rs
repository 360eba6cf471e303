//! The table of results already computed.
//!
//! A [`Memo`] maps triples `(x, y, k)` of words to the value of the
//! recurrence at that triple. It only ever grows, and an entry, once made,
//! is never replaced.

use crate::recurrence::{energy, is_word};
use std::collections::HashMap;
use vstd::prelude::*;

verus! {

/// The place of the triple `(x, y, k)` in the underlying hash table.
spec fn slot(x: nat, y: nat, k: nat) -> nat {
    (x * 65536 + y) * 65536 + k
}

/// Distinct triples of 16-bit numbers have distinct slots.
proof fn lemma_slot_injective(a: (nat, nat, nat), b: (nat, nat, nat))
    requires
        a.0 < 65536 && a.1 < 65536 && a.2 < 65536,
        b.0 < 65536 && b.1 < 65536 && b.2 < 65536,
        slot(a.0, a.1, a.2) == slot(b.0, b.1, b.2),
    ensures
        a == b,
{
}

/// Every entry of `m` is keyed by a triple of words and holds the value of
/// the recurrence at its key.
pub open spec fn sound(m: Map<(nat, nat, nat), nat>) -> bool {
    forall|t: (nat, nat, nat)| #[trigger]
        m.contains_key(t) ==> is_word(t.0) && is_word(t.1) && is_word(t.2) && m[t] == energy(
            t.0,
            t.1,
            t.2,
        )
}

/// A memo table for the recurrence.
pub struct Memo {
    table: HashMap<u64, u16>,
}

impl View for Memo {
    type V = Map<(nat, nat, nat), nat>;

    closed spec fn view(&self) -> Map<(nat, nat, nat), nat> {
        Map::new(
            |t: (nat, nat, nat)|
                t.0 < 65536 && t.1 < 65536 && t.2 < 65536 && self.table@.contains_key(
                    slot(t.0, t.1, t.2) as u64,
                ),
            |t: (nat, nat, nat)| self.table@[slot(t.0, t.1, t.2) as u64] as nat,
        )
    }
}

impl Memo {
    /// The hash table holds as many entries as the view.
    pub closed spec fn counted(&self) -> bool {
        self@.dom().len() == self.table@.dom().len()
    }

    /// Well-formedness: the table is finite and [`sound`], and its
    /// representation is consistent.
    pub open spec fn wf(&self) -> bool {
        &&& self@.dom().finite()
        &&& sound(self@)
        &&& self.counted()
    }

    /// An empty table.
    pub fn new() -> (memo: Memo)
        ensures
            memo.wf(),
            memo@ == Map::<(nat, nat, nat), nat>::empty(),
    {
        Memo { table: HashMap::new() }
    }

    /// The number of entries.
    pub fn len(&self) -> (n: usize)
        requires
            self.wf(),
        ensures
            n == self@.dom().len(),
    {
        self.table.len()
    }

    /// The stored result for `(x, y, k)`, if there is one.
    pub fn get(&self, x: u16, y: u16, k: u16) -> (found: Option<u16>)
        ensures
            match found {
                Some(v) => self@.contains_key((x as nat, y as nat, k as nat)) && self@[(
                    x as nat,
                    y as nat,
                    k as nat,
                )] == v,
                None => !self@.contains_key((x as nat, y as nat, k as nat)),
            },
    {
        let key: u64 = ((x as u64) * 65536 + (y as u64)) * 65536 + (k as u64);
        match self.table.get(&key) {
            Some(v) => Some(*v),
            None => None,
        }
    }

    /// Records that the recurrence has the value `v` at `(x, y, k)`, a
    /// triple not yet in the table.
    pub(crate) fn insert(&mut self, x: u16, y: u16, k: u16, v: u16)
        requires
            old(self).wf(),
            is_word(x as nat),
            is_word(y as nat),
            is_word(k as nat),
            !old(self)@.contains_key((x as nat, y as nat, k as nat)),
            v == energy(x as nat, y as nat, k as nat),
        ensures
            final(self).wf(),
            final(self)@ == old(self)@.insert((x as nat, y as nat, k as nat), v as nat),
    {
        let key: u64 = ((x as u64) * 65536 + (y as u64)) * 65536 + (k as u64);
        self.table.insert(key, v);
        assert(self@ =~= old(self)@.insert((x as nat, y as nat, k as nat), v as nat)) by {
            assert forall|t: (nat, nat, nat)|
                t.0 < 65536 && t.1 < 65536 && t.2 < 65536 && slot(t.0, t.1, t.2) == key implies t
                == (x as nat, y as nat, k as nat) by {
                lemma_slot_injective(t, (x as nat, y as nat, k as nat));
            }
        }
    }
}

} // verus!
