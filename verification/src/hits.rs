//! Choosing the nearest of a list of ray hits.

use vstd::prelude::*;

verus! {

/// Whether entry `chosen` of `hits` is the nearest hit: it is a hit, every
/// earlier hit lies strictly farther, and no later hit lies nearer. A hit is
/// `Some` of a key that orders hits by their distance along the ray; `None`
/// is a miss.
pub open spec fn is_nearest_hit(hits: Seq<Option<u32>>, chosen: int) -> bool {
    &&& 0 <= chosen < hits.len()
    &&& hits[chosen] is Some
    &&& forall|j: int|
        0 <= j < chosen && (#[trigger] hits[j]) is Some ==> hits[j]->0 > hits[chosen]->0
    &&& forall|j: int|
        chosen < j < hits.len() && (#[trigger] hits[j]) is Some ==> hits[j]->0 >= hits[chosen]->0
}

/// The position of the nearest hit, as a scan that keeps the first hit with
/// a strictly smaller key finds it; `None` when every entry is a miss.
pub fn nearest_hit(hits: &Vec<Option<u32>>) -> (nearest: Option<usize>)
    ensures
        match nearest {
            None => forall|j: int| 0 <= j < hits.len() ==> (#[trigger] hits@[j]) is None,
            Some(chosen) => is_nearest_hit(hits@, chosen as int),
        },
{
    let mut nearest: Option<usize> = None;
    let mut nearest_key: u32 = 0;
    let mut index: usize = 0;
    while index < hits.len()
        invariant
            index <= hits.len(),
            match nearest {
                None => forall|j: int| 0 <= j < index ==> (#[trigger] hits@[j]) is None,
                Some(chosen) => {
                    &&& chosen < index
                    &&& hits@[chosen as int] == Some(nearest_key)
                    &&& forall|j: int|
                        0 <= j < chosen && (#[trigger] hits@[j]) is Some ==> hits@[j]->0 > nearest_key
                    &&& forall|j: int|
                        chosen < j < index && (#[trigger] hits@[j]) is Some ==> hits@[j]->0 >= nearest_key
                },
            },
        decreases hits.len() - index,
    {
        match hits[index] {
            Some(key) => {
                let closer = match nearest {
                    None => true,
                    Some(_) => key < nearest_key,
                };
                if closer {
                    nearest = Some(index);
                    nearest_key = key;
                }
            },
            None => {},
        }
        index += 1;
    }
    nearest
}

/// At most one entry of a list of hits is the nearest hit.
pub proof fn lemma_nearest_hit_unique(hits: Seq<Option<u32>>, first: int, second: int)
    requires
        is_nearest_hit(hits, first),
        is_nearest_hit(hits, second),
    ensures
        first == second,
{
    if first < second {
        assert(hits[first] is Some);
    } else if second < first {
        assert(hits[second] is Some);
    }
}

} // verus!
