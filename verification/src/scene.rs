//! Resolving the names in a scene description: which material an object
//! uses, and which textures and models must be loaded (each one once).

use vstd::prelude::*;

verus! {

/// The text of each request, `None` where nothing is requested.
pub open spec fn request_names(requests: Seq<Option<String>>) -> Seq<Option<Seq<char>>> {
    requests.map_values(
        |request: Option<String>|
            match request {
                Some(name) => Some(name@),
                None => None,
            },
    )
}

/// The names requested in `requests`, each once, in the order of their first
/// request.
pub open spec fn distinct_in_order(requests: Seq<Option<Seq<char>>>) -> Seq<Seq<char>>
    decreases requests.len(),
{
    if requests.len() == 0 {
        Seq::empty()
    } else {
        let earlier = distinct_in_order(requests.drop_last());
        match requests.last() {
            None => earlier,
            Some(name) => if earlier.contains(name) {
                earlier
            } else {
                earlier.push(name)
            },
        }
    }
}

/// The text of each name.
pub open spec fn name_texts(names: Seq<String>) -> Seq<Seq<char>> {
    names.map_values(|name: String| name@)
}

/// The position of the first name in `names` equal to `name`.
pub fn position_of(names: &Vec<String>, name: &String) -> (position: Option<usize>)
    ensures
        match position {
            None => forall|j: int| 0 <= j < names.len() ==> (#[trigger] names@[j])@ != name@,
            Some(found) => {
                &&& found < names.len()
                &&& names@[found as int]@ == name@
                &&& forall|j: int| 0 <= j < found ==> (#[trigger] names@[j])@ != name@
            },
        },
{
    let mut index: usize = 0;
    while index < names.len()
        invariant
            index <= names.len(),
            forall|j: int| 0 <= j < index ==> (#[trigger] names@[j])@ != name@,
        decreases names.len() - index,
    {
        if names[index] == *name {
            return Some(index);
        }
        index += 1;
    }
    None
}

/// The material that an object naming `name` uses: the last material whose
/// identifier is `name`, since a later definition replaces an earlier one;
/// `None` when no material has that identifier.
pub fn find_material(identifiers: &Vec<String>, name: &String) -> (material: Option<usize>)
    ensures
        match material {
            None => forall|j: int| 0 <= j < identifiers.len() ==> (#[trigger] identifiers@[j])@ != name@,
            Some(found) => {
                &&& found < identifiers.len()
                &&& identifiers@[found as int]@ == name@
                &&& forall|j: int|
                    found < j < identifiers.len() ==> (#[trigger] identifiers@[j])@ != name@
            },
        },
{
    let mut remaining: usize = identifiers.len();
    while remaining > 0
        invariant
            remaining <= identifiers.len(),
            forall|j: int| remaining <= j < identifiers.len() ==> (#[trigger] identifiers@[j])@ != name@,
        decreases remaining,
    {
        if identifiers[remaining - 1] == *name {
            return Some(remaining - 1);
        }
        remaining -= 1;
    }
    None
}

/// Plans the loading of shared resources (textures or models) named by
/// `requests`: `loads` lists each requested name once, in the order of its
/// first request, and `slots[j]` is the position in `loads` of the name that
/// request `j` asks for (`None` where request `j` asks for nothing). Loading
/// `loads` in order and handing request `j` the resource at `slots[j]` loads
/// every resource once and reuses it for every later request of it.
pub fn plan_shared_loads(requests: &Vec<Option<String>>) -> (plan: (Vec<String>, Vec<Option<usize>>))
    ensures
        name_texts(plan.0@) == distinct_in_order(request_names(requests@)),
        plan.1.len() == requests.len(),
        forall|j: int|
            0 <= j < requests.len() ==> match #[trigger] requests@[j] {
                None => plan.1@[j] is None,
                Some(name) => {
                    &&& plan.1@[j] is Some
                    &&& plan.1@[j]->0 < plan.0.len()
                    &&& plan.0@[plan.1@[j]->0 as int]@ == name@
                },
            },
{
    let mut loads: Vec<String> = Vec::new();
    let mut slots: Vec<Option<usize>> = Vec::new();
    let mut index: usize = 0;
    while index < requests.len()
        invariant
            index <= requests.len(),
            slots.len() == index,
            name_texts(loads@) == distinct_in_order(request_names(requests@).take(index as int)),
            forall|j: int|
                0 <= j < index ==> match #[trigger] requests@[j] {
                    None => slots@[j] is None,
                    Some(name) => {
                        &&& slots@[j] is Some
                        &&& slots@[j]->0 < loads.len()
                        &&& loads@[slots@[j]->0 as int]@ == name@
                    },
                },
        decreases requests.len() - index,
    {
        let ghost names = request_names(requests@);
        proof {
            assert(names.take(index + 1).drop_last() == names.take(index as int));
        }
        match &requests[index] {
            None => {
                slots.push(None);
            },
            Some(name) => {
                match position_of(&loads, name) {
                    Some(found) => {
                        proof {
                            assert(name_texts(loads@)[found as int] == name@);
                        }
                        slots.push(Some(found));
                    },
                    None => {
                        proof {
                            assert forall|j: int| 0 <= j < name_texts(loads@).len() implies
                                #[trigger] name_texts(loads@)[j] != name@ by {
                                assert(loads@[j]@ != name@);
                            }
                        }
                        let ghost before = loads@;
                        loads.push(name.clone());
                        proof {
                            assert(name_texts(loads@) == name_texts(before).push(name@));
                        }
                        slots.push(Some(loads.len() - 1));
                    },
                }
            },
        }
        index += 1;
    }
    proof {
        assert(request_names(requests@).take(requests.len() as int) == request_names(requests@));
    }
    (loads, slots)
}


/// Every resource is loaded once: the planned loads hold no name twice, hold
/// every requested name, and hold nothing that was not requested.
pub proof fn lemma_each_resource_loaded_once(requests: Seq<Option<Seq<char>>>)
    ensures
        forall|i: int, j: int|
            0 <= i < j < distinct_in_order(requests).len() ==> distinct_in_order(requests)[i]
                != distinct_in_order(requests)[j],
        forall|j: int|
            0 <= j < requests.len() && (#[trigger] requests[j]) is Some ==> distinct_in_order(
                requests,
            ).contains(requests[j]->0),
        forall|name: Seq<char>|
            #[trigger] distinct_in_order(requests).contains(name) ==> requests.contains(Some(name)),
    decreases requests.len(),
{
    if requests.len() > 0 {
        let earlier_requests = requests.drop_last();
        lemma_each_resource_loaded_once(earlier_requests);
        let earlier = distinct_in_order(earlier_requests);
        assert forall|j: int|
            0 <= j < requests.len() && (#[trigger] requests[j]) is Some implies distinct_in_order(
                requests,
            ).contains(requests[j]->0) by {
            if j < requests.len() - 1 {
                assert(earlier_requests[j] == requests[j]);
                let p = choose|p: int| 0 <= p < earlier.len() && earlier[p] == requests[j]->0;
                assert(distinct_in_order(requests)[p] == requests[j]->0);
            } else if !earlier.contains(requests[j]->0) {
                assert(distinct_in_order(requests)[earlier.len() as int] == requests[j]->0);
            }
        }
        assert forall|name: Seq<char>| #[trigger] distinct_in_order(requests).contains(name) implies requests.contains(Some(name)) by {
            if earlier.contains(name) {
                let p = choose|p: int| 0 <= p < earlier_requests.len() && earlier_requests[p] == Some(name);
                assert(requests[p] == Some(name));
            } else {
                assert(requests[requests.len() - 1] == Some(name));
            }
        }
    }
}


/// The names planned for the first `count` requests are the first names
/// planned for all of them.
pub proof fn lemma_plan_prefix(requests: Seq<Option<Seq<char>>>, count: int)
    requires
        0 <= count <= requests.len(),
    ensures
        distinct_in_order(requests.take(count)).len() <= distinct_in_order(requests).len(),
        distinct_in_order(requests).take(distinct_in_order(requests.take(count)).len() as int)
            == distinct_in_order(requests.take(count)),
    decreases requests.len(),
{
    if count == requests.len() {
        assert(requests.take(count) == requests);
    } else {
        let earlier_requests = requests.drop_last();
        assert(earlier_requests.take(count) == requests.take(count));
        lemma_plan_prefix(earlier_requests, count);
        let before = distinct_in_order(requests.take(count));
        let earlier = distinct_in_order(earlier_requests);
        assert(distinct_in_order(requests).take(before.len() as int) == earlier.take(before.len() as int));
    }
}

/// Loading lazily in request order follows the plan: the first request of a
/// name asks for the next planned resource (the one after those planned for
/// the earlier requests), and a repeated request asks for one of those.
pub proof fn lemma_lazy_loading_follows_plan(requests: Seq<Option<Seq<char>>>, j: int)
    requires
        0 <= j < requests.len(),
        requests[j] is Some,
    ensures
        ({
            let planned_before = distinct_in_order(requests.take(j));
            let name = requests[j]->0;
            if requests.take(j).contains(requests[j]) {
                exists|k: int| 0 <= k < planned_before.len() && distinct_in_order(requests)[k] == name
            } else {
                &&& planned_before.len() < distinct_in_order(requests).len()
                &&& distinct_in_order(requests)[planned_before.len() as int] == name
            }
        }),
{
    let name = requests[j]->0;
    let before_requests = requests.take(j);
    let planned_before = distinct_in_order(before_requests);
    lemma_plan_prefix(requests, j);
    lemma_plan_prefix(requests, j + 1);
    lemma_each_resource_loaded_once(before_requests);
    assert(requests.take(j + 1).drop_last() == before_requests);
    if before_requests.contains(requests[j]) {
        let i = choose|i: int| 0 <= i < before_requests.len() && before_requests[i] == requests[j];
        assert(before_requests[i] is Some);
        let k = choose|k: int| 0 <= k < planned_before.len() && planned_before[k] == name;
        assert(distinct_in_order(requests).take(planned_before.len() as int)[k] == name);
    } else {
        if planned_before.contains(name) {
            assert(before_requests.contains(Some(name)));
        }
        assert(distinct_in_order(requests.take(j + 1)) == planned_before.push(name));
        assert(distinct_in_order(requests).take(planned_before.len() + 1int)[planned_before.len() as int] == name);
    }
}

} // verus!
