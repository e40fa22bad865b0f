//! Keys for what a poller waits for.

use vstd::prelude::*;

verus! {

/// The key under which a poller holds a target.
#[derive(Debug, PartialEq, Eq, PartialOrd, Ord, Hash, Clone, Copy)]
pub struct EventKey(pub u32);

/// The keys of the targets that are ready.
///
/// `indexes` holds, for each target that was handed to the poll, the index
/// under which the poller holds it; `ready` holds the places, in that list,
/// of the targets that the poll found ready. Each place must lie within the
/// list. A key is the low 32 bits of its index.
pub fn ready_keys(indexes: &[usize], ready: &[u32]) -> (keys: Vec<EventKey>)
    requires
        forall|i: int| 0 <= i < ready@.len() ==> (#[trigger] ready@[i]) < indexes@.len(),
    ensures
        keys@.len() == ready@.len(),
        forall|i: int|
            0 <= i < ready@.len() ==> (#[trigger] keys@[i]).0 == indexes@[ready@[i] as int] as u32,
{
    let mut keys: Vec<EventKey> = Vec::new();
    let mut i: usize = 0;
    while i < ready.len()
        invariant
            i <= ready@.len(),
            keys@.len() == i,
            forall|j: int| 0 <= j < ready@.len() ==> (#[trigger] ready@[j]) < indexes@.len(),
            forall|j: int|
                0 <= j < i ==> (#[trigger] keys@[j]).0 == indexes@[ready@[j] as int] as u32,
        decreases ready@.len() - i,
    {
        let index: usize = indexes[ready[i] as usize];
        keys.push(EventKey(#[verifier::truncate] (index as u32)));
        i += 1;
    }
    keys
}

} // verus!
