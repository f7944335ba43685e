use pmrs::adjacency::to_stable_graph;
use pmrs::decomposition::{decompose_in_place, general_object_split_in_place};
use pmrs::eventset::intersection_count_sorted_vec;
use pmrs::ocdg::{generate_ocdg, MissingMapping, Ocdg};
use pmrs::ocel::{BuilderObject, Ocel};
use pmrs::relations::{check_non_directed, check_time_conscious, OcdgRelations, Relations};

fn obj(t: &str, id: &str) -> BuilderObject {
    BuilderObject(t.to_string(), id.to_string())
}

fn oid(g: &Ocdg, name: &str) -> usize {
    g.object_map.iter().find(|(n, _)| n == name).expect("cannot fail").1
}

/// The sorted witnesses of `s -> t` of kind `k`, if the graph holds that relation.
fn witness(g: &Ocdg, s: usize, t: usize, k: Relations) -> Option<Vec<usize>> {
    g.irels.iter().find(|e| e.source == s && e.target == t && e.relation == k).map(|e| {
        let mut v = e.events.clone();
        v.sort();
        v
    })
}

fn count_kind(g: &Ocdg, k: Relations) -> usize {
    g.irels.iter().filter(|e| e.relation == k).count()
}

fn src_cut(g: &Ocdg, o: usize) -> Vec<usize> {
    let mut v = g.node_attributes[o].as_ref().unwrap().src_cut.clone();
    v.sort();
    v
}

fn tar_cut(g: &Ocdg, o: usize) -> Vec<usize> {
    let mut v = g.node_attributes[o].as_ref().unwrap().tar_cut.clone();
    v.sort();
    v
}

/// order o1 -> item i1 -> packages p1, p2; package p1 -> route r1.
fn decomposition_log() -> Ocel {
    let mut log = Ocel::new();
    log.add_event("e0", 0, "place order", vec![obj("order", "o1")]);
    log.add_event("e1", 10, "pick item", vec![obj("order", "o1"), obj("item", "i1")]);
    log.add_event("e2", 20, "pack items", vec![obj("item", "i1"), obj("package", "p1"), obj("package", "p2")]);
    log.add_event("e3", 30, "start route", vec![obj("package", "p1"), obj("route", "r1")]);
    log
}

#[test]
fn test_decompose_general_object_split() {
    let default: Ocdg = generate_ocdg(&decomposition_log(), &vec![Relations::DESCENDANTS]);
    assert_eq!(default.edge_count(), 4);

    let decomposed: Ocdg = general_object_split_in_place(default);
    assert_eq!(decomposed.edge_count(), 2);

    let general_object = oid(&decomposed, "i1");
    assert_eq!(src_cut(&decomposed, general_object).len(), 2);
    assert_eq!(tar_cut(&decomposed, general_object).len(), 0);

    let child1 = oid(&decomposed, "p1");
    assert_eq!(tar_cut(&decomposed, child1).len(), 1);
    assert_eq!(src_cut(&decomposed, child1).len(), 0);

    let child2 = oid(&decomposed, "p2");
    assert_eq!(tar_cut(&decomposed, child2).len(), 1);
    assert_eq!(src_cut(&decomposed, child2).len(), 0);

    let nothing = oid(&decomposed, "o1");
    assert_eq!(src_cut(&decomposed, nothing).len(), 0);
    assert_eq!(tar_cut(&decomposed, nothing).len(), 0);
}

#[test]
fn split_fans_out_to_same_type_successors() {
    // o1's last event is the first event of i1 and of i2, all three of one type
    let mut log = Ocel::new();
    log.add_event("e0", 0, "create", vec![obj("item", "o1")]);
    log.add_event("e1", 1, "split", vec![obj("item", "o1"), obj("item", "i1"), obj("item", "i2")]);
    log.add_event("e2", 2, "ship", vec![obj("item", "i1")]);
    log.add_event("e3", 3, "ship", vec![obj("item", "i2")]);
    let g = generate_ocdg(&log, &vec![Relations::SPLIT]);
    let (o1, i1, i2) = (oid(&g, "o1"), oid(&g, "i1"), oid(&g, "i2"));
    assert_eq!(g.irels.len(), 2);
    assert_eq!(witness(&g, o1, i1, Relations::SPLIT), Some(vec![1]));
    assert_eq!(witness(&g, o1, i2, Relations::SPLIT), Some(vec![1]));
}

#[test]
fn split_needs_the_source_type() {
    // an order that ends where two items begin splits into nothing: Split
    // only follows objects of the source's own type
    let mut log = Ocel::new();
    log.add_event("e0", 0, "create", vec![obj("order", "o1")]);
    log.add_event("e1", 1, "split", vec![obj("order", "o1"), obj("item", "i1"), obj("item", "i2")]);
    let g = generate_ocdg(&log, &vec![Relations::SPLIT]);
    assert_eq!(g.irels.len(), 0);
    assert_eq!(g.edge_count(), 0);
}

#[test]
fn split_needs_two_successors() {
    let mut log = Ocel::new();
    log.add_event("e0", 0, "create", vec![obj("item", "o1")]);
    log.add_event("e1", 1, "hand over", vec![obj("item", "o1"), obj("item", "i1")]);
    log.add_event("e2", 2, "ship", vec![obj("item", "i1")]);
    let g = generate_ocdg(&log, &vec![Relations::SPLIT]);
    assert_eq!(count_kind(&g, Relations::SPLIT), 0);
}

#[test]
fn colife_of_identical_histories() {
    let mut log = Ocel::new();
    for (i, name) in ["e0", "e1", "e2"].iter().enumerate() {
        log.add_event(name, i as i64, "step", vec![obj("order", "a"), obj("item", "b")]);
    }
    let g = generate_ocdg(&log, &vec![Relations::COLIFE]);
    let (a, b) = (oid(&g, "a"), oid(&g, "b"));
    assert_eq!(witness(&g, a, b, Relations::COLIFE), Some(vec![0, 1, 2]));
    assert_eq!(witness(&g, b, a, Relations::COLIFE), Some(vec![0, 1, 2]));
    assert_eq!(g.irels.len(), 2);
}

fn minion_log() -> Ocel {
    let mut log = Ocel::new();
    log.add_event("e0", 0, "s", vec![obj("order", "a")]);
    log.add_event("e1", 1, "s", vec![obj("order", "a"), obj("item", "b")]);
    log.add_event("e2", 2, "s", vec![obj("order", "a")]);
    log.add_event("e3", 3, "s", vec![obj("order", "a"), obj("item", "b")]);
    log
}

#[test]
fn minion_of_contained_history() {
    let g = generate_ocdg(&minion_log(), &vec![Relations::MINION]);
    let (a, b) = (oid(&g, "a"), oid(&g, "b"));
    assert_eq!(witness(&g, a, b, Relations::MINION), Some(vec![1, 3]));
    assert_eq!(witness(&g, b, a, Relations::MINION), None);
    assert_eq!(g.irels.len(), 1);
}

#[test]
fn decomposition_cuts_general_object() {
    let mut log = Ocel::new();
    log.add_event("e0", 0, "make", vec![obj("item", "g")]);
    log.add_event("e1", 1, "pack", vec![obj("item", "g"), obj("package", "p1"), obj("package", "p2")]);
    let g = generate_ocdg(&log, &vec![Relations::DESCENDANTS]);
    let (gi, p1, p2) = (oid(&g, "g"), oid(&g, "p1"), oid(&g, "p2"));
    assert_eq!(witness(&g, gi, p1, Relations::DESCENDANTS), Some(vec![1]));
    assert_eq!(witness(&g, gi, p2, Relations::DESCENDANTS), Some(vec![1]));
    let d = decompose_in_place(g);
    assert_eq!(d.irels.len(), 0);
    assert_eq!(d.edge_count(), 0);
    let mut expected = vec![p1, p2];
    expected.sort();
    assert_eq!(src_cut(&d, gi), expected);
    assert_eq!(tar_cut(&d, p1), vec![gi]);
    assert_eq!(tar_cut(&d, p2), vec![gi]);
}

#[test]
fn decomposition_keeps_other_kinds_on_a_cut_pair() {
    let mut log = Ocel::new();
    log.add_event("e0", 0, "make", vec![obj("item", "g")]);
    log.add_event("e1", 1, "pack", vec![obj("item", "g"), obj("package", "p1"), obj("package", "p2")]);
    let g = generate_ocdg(&log, &vec![Relations::DESCENDANTS, Relations::INTERACTS]);
    let (gi, p1) = (oid(&g, "g"), oid(&g, "p1"));
    let edges_before = g.edge_count();
    let d = decompose_in_place(g);
    assert_eq!(witness(&d, gi, p1, Relations::DESCENDANTS), None);
    assert_eq!(witness(&d, gi, p1, Relations::INTERACTS), Some(vec![1]));
    assert_eq!(d.edge_count(), edges_before);
}

#[test]
fn decomposition_twice_changes_nothing() {
    let once = decompose_in_place(generate_ocdg(&decomposition_log(), &vec![Relations::DESCENDANTS, Relations::INTERACTS]));
    let snapshot: Vec<(usize, usize, Relations, Vec<usize>)> = once.irels.iter().map(|e| (e.source, e.target, e.relation, e.events.clone())).collect();
    let cuts: Vec<(Vec<usize>, Vec<usize>)> = (0..once.node_attributes.len()).filter(|o| once.node_attributes[*o].is_some()).map(|o| (src_cut(&once, o), tar_cut(&once, o))).collect();
    let twice = decompose_in_place(once);
    let snapshot2: Vec<(usize, usize, Relations, Vec<usize>)> = twice.irels.iter().map(|e| (e.source, e.target, e.relation, e.events.clone())).collect();
    let cuts2: Vec<(Vec<usize>, Vec<usize>)> = (0..twice.node_attributes.len()).filter(|o| twice.node_attributes[*o].is_some()).map(|o| (src_cut(&twice, o), tar_cut(&twice, o))).collect();
    assert_eq!(snapshot, snapshot2);
    assert_eq!(cuts, cuts2);
}

/// Three objects over five events with a variety of relations among them.
fn mixed_log() -> Ocel {
    let mut log = Ocel::new();
    log.add_event("e0", 0, "place", vec![obj("order", "o1"), obj("item", "i1")]);
    log.add_event("e1", 1, "pick", vec![obj("order", "o1"), obj("item", "i1"), obj("item", "i2")]);
    log.add_event("e2", 2, "pack", vec![obj("item", "i1"), obj("item", "i2")]);
    log.add_event("e3", 3, "ship", vec![obj("item", "i2"), obj("package", "k1")]);
    log.add_event("e4", 4, "deliver", vec![obj("package", "k1")]);
    log
}

fn all_kinds() -> Vec<Relations> {
    vec![
        Relations::INTERACTS,
        Relations::COLIFE,
        Relations::COBIRTH,
        Relations::CODEATH,
        Relations::DESCENDANTS,
        Relations::INHERITANCE,
        Relations::CONSUMES,
        Relations::SPLIT,
        Relations::MERGE,
        Relations::MINION,
        Relations::PEELER,
        Relations::ENGAGES,
        Relations::ASCENDANTS,
    ]
}

#[test]
fn pairwise_kinds_on_a_mixed_log() {
    let g = generate_ocdg(&mixed_log(), &all_kinds());
    let (o1, i1, i2, k1) = (oid(&g, "o1"), oid(&g, "i1"), oid(&g, "i2"), oid(&g, "k1"));
    // o1: [0, 1], i1: [0, 1, 2], i2: [1, 2, 3], k1: [3, 4]
    assert_eq!(witness(&g, o1, i1, Relations::INTERACTS), Some(vec![0, 1]));
    assert_eq!(witness(&g, i1, i2, Relations::INTERACTS), Some(vec![1, 2]));
    assert_eq!(witness(&g, o1, k1, Relations::INTERACTS), None);
    assert_eq!(witness(&g, o1, i1, Relations::COBIRTH), Some(vec![0]));
    assert_eq!(witness(&g, i1, o1, Relations::COBIRTH), Some(vec![0]));
    assert_eq!(witness(&g, o1, i2, Relations::CODEATH), None);
    assert_eq!(witness(&g, o1, i2, Relations::DESCENDANTS), Some(vec![1]));
    assert_eq!(witness(&g, i1, i2, Relations::DESCENDANTS), Some(vec![1]));
    assert_eq!(witness(&g, i2, o1, Relations::ASCENDANTS), Some(vec![1]));
    assert_eq!(witness(&g, i2, k1, Relations::CONSUMES), Some(vec![3]));
    assert_eq!(witness(&g, i1, i2, Relations::MERGE), Some(vec![2]));
    assert_eq!(witness(&g, i2, i1, Relations::MERGE), Some(vec![3]));
    assert_eq!(witness(&g, i1, o1, Relations::MINION), Some(vec![0, 1]));
    assert_eq!(witness(&g, o1, i1, Relations::MINION), None);
    // e1 holds o1, i1 and i2, so o1 and i1 do not peel apart; i2 and k1 only meet in e3
    assert_eq!(witness(&g, o1, i1, Relations::PEELER), None);
    assert_eq!(witness(&g, i2, k1, Relations::PEELER), Some(vec![3, 4]));
    assert_eq!(witness(&g, k1, i2, Relations::PEELER), Some(vec![3, 4]));
    assert_eq!(count_kind(&g, Relations::ENGAGES), 0);
    assert_eq!(count_kind(&g, Relations::SPLIT), 0);
    assert_eq!(count_kind(&g, Relations::INHERITANCE), 0);
}

#[test]
fn inheritance_and_engages() {
    let mut log = Ocel::new();
    log.add_event("e0", 0, "a", vec![obj("item", "x")]);
    log.add_event("e1", 1, "b", vec![obj("item", "x"), obj("item", "y")]);
    log.add_event("e2", 2, "c", vec![obj("item", "y")]);
    log.add_event("e3", 3, "d", vec![obj("order", "u")]);
    log.add_event("e4", 4, "e", vec![obj("order", "v")]);
    log.add_event("e5", 5, "f", vec![obj("order", "u"), obj("order", "v")]);
    log.add_event("e6", 6, "g", vec![obj("order", "u"), obj("order", "v")]);
    log.add_event("e7", 7, "h", vec![obj("order", "v"), obj("order", "w")]);
    log.add_event("e8", 8, "i", vec![obj("order", "v")]);
    log.add_event("e9", 9, "j", vec![obj("order", "u")]);
    let g = generate_ocdg(&log, &vec![Relations::INHERITANCE, Relations::ENGAGES]);
    let (x, y, u, v, w) = (oid(&g, "x"), oid(&g, "y"), oid(&g, "u"), oid(&g, "v"), oid(&g, "w"));
    assert_eq!(witness(&g, x, y, Relations::INHERITANCE), Some(vec![1]));
    assert_eq!(witness(&g, y, x, Relations::INHERITANCE), None);
    // u: [3, 5, 6, 9], v: [4, 5, 6, 7, 8]: neither holds the other's first or last event
    assert_eq!(witness(&g, u, v, Relations::ENGAGES), Some(vec![5, 6]));
    assert_eq!(witness(&g, v, u, Relations::ENGAGES), Some(vec![5, 6]));
    // w: [7] lies inside v's history
    assert_eq!(witness(&g, v, w, Relations::ENGAGES), None);
    assert_eq!(g.irels.len(), 3);
}

#[test]
fn isolated_objects_are_nodes_without_edges() {
    let mut log = Ocel::new();
    log.add_event("e0", 0, "a", vec![obj("order", "o1")]);
    log.add_event("e1", 1, "b", vec![obj("order", "o2")]);
    let g = generate_ocdg(&log, &all_kinds());
    assert_eq!(g.object_map.len(), 2);
    assert!(g.node_attributes.iter().all(|n| n.is_some()));
    assert_eq!(g.node_attributes[0].as_ref().unwrap().node_type, "order");
    assert_eq!(g.edge_count(), 0);
    assert!(g.event_map.is_empty());
}

#[test]
fn empty_request_gives_nodes_only() {
    let g = generate_ocdg(&mixed_log(), &vec![]);
    assert_eq!(g.object_map.len(), 4);
    assert_eq!(g.irels.len(), 0);
    assert_eq!(g.edge_count(), 0);
}

#[test]
fn build_is_deterministic() {
    let log = mixed_log();
    let mut kinds = all_kinds();
    let g1 = generate_ocdg(&log, &kinds);
    kinds.reverse();
    let g2 = generate_ocdg(&log, &kinds);
    let mut r1: Vec<(usize, usize, u8, Vec<usize>)> = g1.irels.iter().map(|e| (e.source, e.target, e.relation.relation_index(), { let mut v = e.events.clone(); v.sort(); v })).collect();
    let mut r2: Vec<(usize, usize, u8, Vec<usize>)> = g2.irels.iter().map(|e| (e.source, e.target, e.relation.relation_index(), { let mut v = e.events.clone(); v.sort(); v })).collect();
    r1.sort();
    r2.sort();
    assert_eq!(r1, r2);
}

#[test]
fn undirected_kinds_are_symmetric() {
    let g = generate_ocdg(&mixed_log(), &all_kinds());
    for e in &g.irels {
        if !e.relation.is_directed() && e.relation != Relations::MERGE {
            let mut w = e.events.clone();
            w.sort();
            assert_eq!(witness(&g, e.target, e.source, e.relation), Some(w));
        }
    }
}

#[test]
fn descendants_start_later_inside_the_source() {
    let log = mixed_log();
    let g = generate_ocdg(&log, &vec![Relations::DESCENDANTS]);
    assert!(!g.irels.is_empty());
    for e in &g.irels {
        let src = &log.objects[e.source].events;
        let tar = &log.objects[e.target].events;
        assert!(src[0] < tar[0]);
        assert!(src.contains(&tar[0]));
    }
}

#[test]
fn minion_witnesses_lie_in_the_source() {
    let log = mixed_log();
    let g = generate_ocdg(&log, &vec![Relations::MINION]);
    assert!(!g.irels.is_empty());
    for e in &g.irels {
        let src = &log.objects[e.source].events;
        assert!(src.len() > log.objects[e.target].events.len());
        assert!(e.events.iter().all(|ev| src.contains(ev)));
    }
}

#[test]
fn witness_events_are_registered() {
    let log = mixed_log();
    let g = generate_ocdg(&log, &vec![Relations::CONSUMES]);
    // o1 ends where i2 begins (e1), i2 ends where k1 begins (e3)
    let mut events = g.event_map.clone();
    events.sort();
    assert_eq!(events, vec![("e1".to_string(), 1), ("e3".to_string(), 3)]);
    assert_eq!(g.irels.len(), 2);
}

#[test]
fn dangling_references_are_skipped() {
    let mut log = Ocel::new();
    log.add_event("e0", 0, "a", vec![obj("order", "o1"), obj("item", "i1")]);
    log.events[0].omap.push(7);
    let g = generate_ocdg(&log, &vec![Relations::INTERACTS]);
    assert_eq!(g.object_map.len(), 2);
    assert_eq!(g.irels.len(), 2);
}

#[test]
fn sorted_intersection() {
    assert_eq!(intersection_count_sorted_vec(&vec![1, 3, 5, 7], &vec![0, 3, 4, 7, 9]), vec![3, 7]);
    assert_eq!(intersection_count_sorted_vec(&vec![], &vec![1, 2]), Vec::<usize>::new());
    assert_eq!(intersection_count_sorted_vec(&vec![2, 4], &vec![1, 3]), Vec::<usize>::new());
}

#[test]
fn relation_properties() {
    assert!(Relations::DESCENDANTS.is_timeconscious());
    assert!(!Relations::MINION.is_timeconscious());
    assert!(Relations::MINION.is_directed());
    assert!(!Relations::MERGE.is_directed());
    assert!(Relations::PEELER.is_multiproof());
    assert!(!Relations::INTERACTS.is_multiproof());
    assert_eq!(Relations::SPLIT.relation_type(), 1);
    assert_eq!(Relations::ENGAGES.relation_type(), 2);
    assert_eq!(Relations::ASCENDANTS.relation_index(), 12);
    assert_eq!(Relations::INTERACTS.relation_index(), 0);
}

#[test]
fn relation_requests_are_validated() {
    assert!(check_non_directed(&vec![Relations::INTERACTS, Relations::COLIFE]).is_ok());
    let err = check_non_directed(&vec![Relations::INTERACTS, Relations::DESCENDANTS]).unwrap_err();
    assert_eq!(err.message(), "Invalid Relation input in vector");
    assert!(check_time_conscious(&vec![Relations::SPLIT, Relations::CONSUMES]).is_ok());
    assert!(check_time_conscious(&vec![Relations::SPLIT, Relations::MERGE]).is_err());
    assert!(check_non_directed(&vec![]).is_ok());
}

#[test]
fn external_ids_of_nodes_and_witnesses() {
    let g = generate_ocdg(&minion_log(), &vec![Relations::MINION]);
    let a = oid(&g, "a");
    assert_eq!(g.object_name(a), Ok("a".to_string()));
    assert_eq!(g.event_name(3), Ok("e3".to_string()));
    // e0 and e2 witness nothing, and there is no object 9
    assert_eq!(g.event_name(0), Err(MissingMapping { id: 0 }));
    assert_eq!(g.object_name(9), Err(MissingMapping { id: 9 }));
}

#[test]
fn adjacency_as_a_petgraph_graph() {
    let g = generate_ocdg(&decomposition_log(), &vec![Relations::DESCENDANTS, Relations::INTERACTS]);
    let net = to_stable_graph(&g);
    assert_eq!(net.node_count(), 5);
    assert_eq!(net.edge_count(), g.edge_count());
    let i1 = oid(&g, "i1");
    let p1 = oid(&g, "p1");
    let a = net.node_indices().find(|n| net[*n] == i1).unwrap();
    let b = net.node_indices().find(|n| net[*n] == p1).unwrap();
    assert!(net.find_edge(a, b).is_some());
    assert!(net.find_edge(b, a).is_some());
    let o1 = oid(&g, "o1");
    let c = net.node_indices().find(|n| net[*n] == o1).unwrap();
    assert!(net.find_edge(c, b).is_none());
}

#[test]
fn every_relation_has_a_witness() {
    let g = generate_ocdg(&mixed_log(), &all_kinds());
    assert!(!g.irels.is_empty());
    assert!(g.irels.iter().all(|e| !e.events.is_empty()));
}

#[test]
fn pairwise_evaluation_of_one_pair() {
    let log = minion_log();
    let a = log.object_index(&"a".to_string()).unwrap();
    let b = log.object_index(&"b".to_string()).unwrap();
    assert!(Relations::SPLIT.execute(&log, a, b).is_empty());
    let minion = Relations::MINION.execute(&log, a, b);
    assert_eq!(minion.len(), 1);
    assert_eq!((minion[0].0, minion[0].1, minion[0].3), (a, b, Relations::MINION));
    assert!(Relations::MINION.execute(&log, b, a).is_empty());
    // the pair is evaluated once, from the object with the smaller id
    assert_eq!(Relations::INTERACTS.execute(&log, a, b).len(), 2);
    assert!(Relations::INTERACTS.execute(&log, b, a).is_empty());
}
