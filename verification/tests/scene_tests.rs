use nitroray::scene::{find_material, plan_shared_loads, position_of};

fn names(values: &[&str]) -> Vec<String> {
    values.iter().map(|value| value.to_string()).collect()
}

#[test]
fn later_material_replaces_earlier() {
    let identifiers = names(&["red", "glass", "red"]);
    assert_eq!(find_material(&identifiers, &"red".to_string()), Some(2));
    assert_eq!(find_material(&identifiers, &"glass".to_string()), Some(1));
    assert_eq!(find_material(&identifiers, &"mirror".to_string()), None);
}

#[test]
fn position_of_finds_first() {
    let list = names(&["a", "b", "a"]);
    assert_eq!(position_of(&list, &"a".to_string()), Some(0));
    assert_eq!(position_of(&list, &"c".to_string()), None);
}

#[test]
fn shared_loads_are_planned_once_each() {
    let requests = vec![
        Some("bunny.glb".to_string()),
        None,
        Some("teapot.glb".to_string()),
        Some("bunny.glb".to_string()),
        None,
    ];
    let (loads, slots) = plan_shared_loads(&requests);
    assert_eq!(loads, names(&["bunny.glb", "teapot.glb"]));
    assert_eq!(slots, vec![Some(0), None, Some(1), Some(0), None]);
}

#[test]
fn no_requests_plan_no_loads() {
    let (loads, slots) = plan_shared_loads(&vec![None, None]);
    assert!(loads.is_empty());
    assert_eq!(slots, vec![None, None]);
}

#[test]
fn lazy_loading_in_request_order_follows_plan() {
    let requests: Vec<Option<String>> = vec![Some("a"), None, Some("b"), Some("a"), Some("c"), Some("b")]
        .into_iter()
        .map(|request| request.map(|name| name.to_string()))
        .collect();
    let (loads, slots) = plan_shared_loads(&requests);
    assert_eq!(slots, vec![Some(0), None, Some(1), Some(0), Some(2), Some(1)]);
    let mut loaded: Vec<String> = Vec::new();
    for (request, slot) in requests.iter().zip(slots.iter()) {
        if let (Some(name), Some(slot)) = (request, slot) {
            if *slot == loaded.len() {
                loaded.push(name.clone());
            }
            assert_eq!(&loaded[*slot], name);
        }
    }
    assert_eq!(loaded, loads);
}
