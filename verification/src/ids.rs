//! Numbers that tell one delivery, or one boundary, from another.
use vstd::prelude::*;

verus! {

/// The number after this one; after the last comes the first.
pub open spec fn next_id(id: u64) -> u64 {
    if id == u64::MAX {
        0
    } else {
        (id + 1) as u64
    }
}

/// Hands out one number after the other.
#[derive(Debug)]
pub struct IdSource {
    /// The number that is handed out next.
    pub next: u64,
}

impl IdSource {
    /// A source whose first number is one.
    pub fn new() -> (r: Self)
        ensures
            r.next == 1,
    {
        IdSource { next: 1 }
    }

    /// Hands out a number.
    pub fn fetch(&mut self) -> (r: u64)
        ensures
            r == old(self).next,
            final(self).next == next_id(old(self).next),
    {
        let id: u64 = self.next;
        self.next = id.wrapping_add(1);
        id
    }
}

/// The source after `n` numbers have been handed out.
pub open spec fn id_after(first: u64, n: nat) -> u64
    decreases n,
{
    if n == 0 {
        first
    } else {
        next_id(id_after(first, (n - 1) as nat))
    }
}

proof fn lemma_id_after(first: u64, n: nat)
    ensures
        id_after(first, n) == (first + n) % 0x1_0000_0000_0000_0000,
    decreases n,
{
    if n > 0 {
        lemma_id_after(first, (n - 1) as nat);
    }
}

/// No number is handed out twice among any 2^64 that follow each other.
pub proof fn law_ids_are_distinct(first: u64, i: nat, j: nat)
    requires
        i < j,
        j - i < 0x1_0000_0000_0000_0000,
    ensures
        id_after(first, i) != id_after(first, j),
{
    lemma_id_after(first, i);
    lemma_id_after(first, j);
}

/// Numbers follow each other one by one, from the first that is given, and after the
/// largest begin again at zero.
pub proof fn law_ids_count_up(first: u64, n: nat)
    ensures
        id_after(first, n) == (first + n) % 0x1_0000_0000_0000_0000,
{
    lemma_id_after(first, n);
}

} // verus!
