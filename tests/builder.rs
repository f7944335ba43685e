use pmrs::ocel::{BuilderObject, Ocel};

#[test]
fn test_simple_event_add() {
    let mut log = Ocel::new();

    log.add_event("e0", 0, "order items", vec![BuilderObject("order".to_string(), "o1".to_string()), BuilderObject("item".to_string(), "i1".to_string())]);

    assert_eq!(log.events.len(), 1);
    assert_eq!(log.event_map.iter().position(|n| n == "e0").expect("The event was not added to the event_map"), 0);

    match log.events.get(0) {
        Some(event) => {
            assert_eq!(event.activity, "order items".to_string());
            assert_eq!(event.omap.len(), 2);
        }
        None => {
            panic!("The event was not added correctly at index 0");
        }
    }

    // add another event but with already containing items
    log.add_event("e1", 1, "receive items", vec![BuilderObject("order".to_string(), "o1".to_string()), BuilderObject("item".to_string(), "i1".to_string())]);

    assert_eq!(log.objects.len(), 2);
    assert_eq!(log.events.len(), 2);
    assert_eq!(log.object_map.len(), 2);
    assert_eq!(log.event_map.len(), 2);
}

#[test]
fn add_event_appends_to_object_histories() {
    let mut log = Ocel::new();
    log.add_event("e0", 0, "a", vec![BuilderObject("order".to_string(), "o1".to_string())]);
    log.add_event("e1", 5, "b", vec![BuilderObject("order".to_string(), "o1".to_string()), BuilderObject("item".to_string(), "i1".to_string()), BuilderObject("item".to_string(), "i1".to_string())]);
    log.add_event("e2", 9, "a", vec![BuilderObject("item".to_string(), "i1".to_string())]);

    let o1 = log.object_index(&"o1".to_string()).unwrap();
    let i1 = log.object_index(&"i1".to_string()).unwrap();
    assert_eq!(log.objects[o1].events, vec![0, 1]);
    assert_eq!(log.objects[i1].events, vec![1, 2]);
    assert_eq!(log.objects[i1].obj_type, "item");
    assert_eq!(log.events[1].omap.len(), 2);
    assert_eq!(log.events[2].timestamp, 9);
    assert_eq!(log.activities, vec!["a".to_string(), "b".to_string()]);
    assert_eq!(log.object_index(&"x".to_string()), None);
}
