//! Incremental position fingerprint: a 64-bit XOR accumulator over one
//! independent random key per (cell, role). Toggling the same stone twice is
//! self-inverse, and the accumulated hash does not depend on the order in
//! which stones were toggled.

use vstd::prelude::*;

verus! {

/// Relies on `rand::random::<u64>`: draws one fresh 64-bit value from the
/// thread-local generator. Nothing is promised of the value drawn.
#[verifier::external_body]
fn random_key() -> u64 {
    rand::random::<u64>()
}

/// The key table and the running XOR of the keys of every stone on the board.
#[derive(Debug)]
pub struct ZobristCache {
    /// One key per (cell, role): entry `(x * size + y) * 2 + role_index`.
    keys: Vec<u64>,
    size: usize,
    hash: u64,
}

/// Index of a role in the key table: 0 for the +1 stones, 1 for the rest.
pub open spec fn role_slot(role_val: int) -> int {
    if role_val == 1 {
        0
    } else {
        1
    }
}

/// Index of the key of (cell, role) in the flat key table.
pub open spec fn key_idx(size: int, x: int, y: int, slot: int) -> int {
    (x * size + y) * 2 + slot
}

proof fn lemma_key_idx_bound(size: int, x: int, y: int, slot: int)
    requires
        0 <= x < size,
        0 <= y < size,
        0 <= slot < 2,
    ensures
        0 <= key_idx(size, x, y, slot) < 2 * size * size,
{
    assert((x * size + y) * 2 + slot < 2 * size * size) by (nonlinear_arith)
        requires
            0 <= x < size,
            0 <= y < size,
            0 <= slot < 2,
    ;
}

impl ZobristCache {
    pub closed spec fn wf(self) -> bool {
        &&& self.size <= 1024
        &&& self.keys@.len() == 2 * self.size * self.size
    }

    pub closed spec fn spec_size(self) -> int {
        self.size as int
    }

    pub closed spec fn spec_hash(self) -> u64 {
        self.hash
    }

    pub closed spec fn spec_keys(self) -> Seq<u64> {
        self.keys@
    }

    /// The key of the stone of `role_val` at cell (x, y).
    pub closed spec fn key_of(self, x: int, y: int, role_val: int) -> u64 {
        self.keys@[key_idx(self.size as int, x, y, role_slot(role_val))]
    }

    /// Build a fresh key table for a `size` by `size` board; the accumulator
    /// starts at zero.
    pub fn new(size: usize) -> (r: ZobristCache)
        requires
            size <= 1024,
        ensures
            r.wf(),
            r.spec_size() == size,
            r.spec_hash() == 0,
    {
        proof {
            assert(2 * (size as int) * (size as int) <= 2 * 1024 * 1024) by (nonlinear_arith)
                requires
                    size <= 1024,
            ;
        }
        let n = 2 * size * size;
        let mut keys: Vec<u64> = Vec::new();
        let mut i: usize = 0;
        while i < n
            invariant
                keys@.len() == i,
                i <= n,
            decreases n - i,
        {
            keys.push(random_key());
            i = i + 1;
        }
        ZobristCache { keys, size, hash: 0 }
    }

    /// XOR the key of (x, y, role) into the accumulator. A second call with
    /// the same arguments undoes the first.
    pub fn toggle_piece(&mut self, x: usize, y: usize, role: i32)
        requires
            old(self).wf(),
            x < old(self).spec_size(),
            y < old(self).spec_size(),
        ensures
            final(self).wf(),
            final(self).spec_size() == old(self).spec_size(),
            final(self).spec_keys() == old(self).spec_keys(),
            final(self).spec_hash() == old(self).spec_hash() ^ old(self).key_of(
                x as int,
                y as int,
                role as int,
            ),
    {
        let slot: usize = if role == 1 {
            0
        } else {
            1
        };
        proof {
            lemma_key_idx_bound(self.size as int, x as int, y as int, slot as int);
            assert(2 * (self.size as int) * (self.size as int) <= 2 * 1024 * 1024)
                by (nonlinear_arith)
                requires
                    self.size <= 1024,
            ;
        }
        let idx = (x * self.size + y) * 2 + slot;
        self.hash = self.hash ^ self.keys[idx];
    }

    /// The current fingerprint.
    pub fn get_hash(&self) -> (r: u64)
        ensures
            r == self.spec_hash(),
    {
        self.hash
    }
}

/// Two caches with the same key table and size agree on every key.
pub proof fn lemma_key_of_eq(a: ZobristCache, b: ZobristCache, x: int, y: int, rv: int)
    requires
        a.spec_keys() == b.spec_keys(),
        a.spec_size() == b.spec_size(),
    ensures
        a.key_of(x, y, rv) == b.key_of(x, y, rv),
{
}

/// Toggling the same key twice restores the accumulator exactly.
pub proof fn lemma_toggle_self_inverse(h: u64, k: u64)
    ensures
        (h ^ k) ^ k == h,
{
    assert((h ^ k) ^ k == h) by (bit_vector);
}

/// The fingerprint is order-independent: toggling key `a` and then key `b`
/// yields the same accumulator as toggling `b` and then `a`. Together with
/// `toggle_piece`'s contract this shows that two boards reachable by the same
/// set of placements hash identically, whatever the move order.
pub proof fn lemma_toggle_order_independent(h: u64, a: u64, b: u64)
    ensures
        (h ^ a) ^ b == (h ^ b) ^ a,
{
    assert((h ^ a) ^ b == (h ^ b) ^ a) by (bit_vector);
}

} // verus!
