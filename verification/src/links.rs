//! Counting a file once however many hard links lead to it: a file is
//! identified by the volume it lives on and its index on that volume.

use vstd::prelude::*;
use std::collections::HashSet;

verus! {

broadcast use vstd::std_specs::hash::group_hash_axioms;

/// The identity of a file: its volume serial number in the high 64 bits,
/// its file index in the low 64 bits.
pub open spec fn file_identity(volume: u32, index: u64) -> nat {
    volume as nat * 0x1_0000_0000_0000_0000 + index as nat
}

/// The identity of the file with index `index` on volume `volume`.
pub fn file_id(volume: u32, index: u64) -> (id: u128)
    ensures
        id == file_identity(volume, index),
{
    let v: u128 = volume as u128;
    let i: u128 = index as u128;
    assert(((v << 64u128) | i) == v * 0x1_0000_0000_0000_0000u128 + i) by (bit_vector)
        requires
            v < 0x1_0000_0000u128,
            i < 0x1_0000_0000_0000_0000u128,
    ;
    (v << 64u128) | i
}

/// Different files have different identities.
pub proof fn lemma_file_identity_injective(v1: u32, i1: u64, v2: u32, i2: u64)
    requires
        file_identity(v1, i1) == file_identity(v2, i2),
    ensures
        v1 == v2,
        i1 == i2,
{
}

/// The identities seen after sighting each of `sightings` (volume, index)
/// in turn, starting from `seen`.
pub open spec fn sighted(seen: Set<u128>, sightings: Seq<(u32, u64)>) -> Set<u128>
    decreases sightings.len(),
{
    if sightings.len() == 0 {
        seen
    } else {
        let (v, i) = sightings.last();
        sighted(seen, sightings.drop_last()).insert(file_identity(v, i) as u128)
    }
}

/// A file is counted once: after one of its links has been sighted, a
/// later sighting of any of its links is not fresh, whatever was sighted in
/// between.
pub proof fn lemma_sighted_stays_seen(seen: Set<u128>, volume: u32, index: u64, between: Seq<(u32, u64)>)
    ensures
        sighted(seen.insert(file_identity(volume, index) as u128), between).contains(
            file_identity(volume, index) as u128,
        ),
    decreases between.len(),
{
    if between.len() > 0 {
        lemma_sighted_stays_seen(seen, volume, index, between.drop_last());
    }
}

/// The identities of the multiply-linked files seen so far.
pub struct LinkRegistry {
    seen: HashSet<u128>,
}

impl View for LinkRegistry {
    type V = Set<u128>;

    closed spec fn view(&self) -> Set<u128> {
        self.seen@
    }
}

impl LinkRegistry {
    /// A registry that has seen nothing.
    pub fn new() -> (r: Self)
        ensures
            r@ == Set::<u128>::empty(),
    {
        LinkRegistry { seen: HashSet::new() }
    }

    /// Notes a sighting of file `index` on volume `volume`; true exactly
    /// when it had not been seen before, so that it is counted once.
    pub fn first_sighting(&mut self, volume: u32, index: u64) -> (fresh: bool)
        ensures
            fresh == !old(self)@.contains(file_identity(volume, index) as u128),
            final(self)@ == old(self)@.insert(file_identity(volume, index) as u128),
    {
        let id = file_id(volume, index);
        self.seen.insert(id)
    }
}

} // verus!
