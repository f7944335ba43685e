use vstd::prelude::*;
use crate::eventset::{extend_ids, insert_id};
use crate::neighbours::{build_neighbour_index, NeighbourIndex};
use crate::ocel::Ocel;
use crate::relations::{
    expected, owner, pair_holds, pair_witness, peeler_shorter, proposal_ok, proposes,
    split_candidate, EventAdd, Proposal, Relations,
};

verus! {

/// What the graph holds for one node: its object type, and the targets and
/// sources of the edges that a decomposition removed from it.
pub struct NodeInfo {
    pub node_type: String,
    pub src_cut: Vec<usize>,
    pub tar_cut: Vec<usize>,
}

/// The error for an internal id that has no external id in the graph.
#[derive(Debug, Clone, Copy, PartialEq, Eq, Structural)]
pub struct MissingMapping {
    pub id: usize,
}

/// One entry of the relation index: the events that witness the relation
/// `relation` from `source` to `target`.
pub struct RelationEntry {
    pub source: usize,
    pub target: usize,
    pub relation: Relations,
    pub events: Vec<usize>,
}

/// The object-centric directed graph of a log.
///
/// `node_attributes[o]` is set for each object `o` that is a node. `irels` is the
/// relation index, with one entry per (source, target, kind). `net` lists each
/// directed pair that at least one entry relates, once. `object_map` and
/// `event_map` give the external id of each node and of each witness event.
pub struct Ocdg {
    pub net: Vec<(usize, usize)>,
    pub node_attributes: Vec<Option<NodeInfo>>,
    pub object_map: Vec<(String, usize)>,
    pub event_map: Vec<(String, usize)>,
    pub irels: Vec<RelationEntry>,
}

impl RelationEntry {
    pub open spec fn key(&self) -> (usize, usize, Relations) {
        (self.source, self.target, self.relation)
    }
}

impl Ocdg {
    /// The key of entry `i` of the relation index.
    pub open spec fn key_at(&self, i: int) -> (usize, usize, Relations) {
        self.irels@[i].key()
    }

    /// The events of entry `i`, as a set.
    pub open spec fn events_at(&self, i: int) -> Set<usize> {
        self.irels@[i].events@.to_set()
    }

    /// The relation index holds an entry for `s -> t` of kind `k`.
    pub open spec fn rel_exists(&self, s: usize, t: usize, k: Relations) -> bool {
        exists|i: int| 0 <= i < self.irels.len() && #[trigger] self.key_at(i) == (s, t, k)
    }

    /// The relation index holds an entry for `s -> t` of kind `k`, witnessed by `w`.
    pub open spec fn has_relation(&self, s: usize, t: usize, k: Relations, w: Set<usize>) -> bool {
        exists|i: int|
            0 <= i < self.irels.len() && #[trigger] self.key_at(i) == (s, t, k) && self.events_at(i)
                == w
    }

    /// The relation index relates `s` to `t` by at least one kind.
    pub open spec fn related(&self, s: usize, t: usize) -> bool {
        exists|i: int|
            0 <= i < self.irels.len() && (#[trigger] self.irels@[i]).source == s
                && self.irels@[i].target == t
    }

    /// Object `o` is a node of the graph.
    pub open spec fn is_node(&self, o: usize) -> bool {
        o < self.node_attributes.len() && self.node_attributes@[o as int] is Some
    }

    /// The type of node `o`.
    pub open spec fn node_type_of(&self, o: usize) -> Seq<char> {
        self.node_attributes@[o as int]->Some_0.node_type@
    }

    /// The structure is consistent: one entry per key, witness lists that are
    /// not empty and without repetition, entries between nodes, and `net` lists exactly the related pairs.
    pub open spec fn wf(&self) -> bool {
        &&& forall|i: int, j: int|
            0 <= i < self.irels.len() && 0 <= j < self.irels.len() && i != j ==> #[trigger] self.key_at(
                i,
            ) != #[trigger] self.key_at(j)
        &&& forall|i: int|
            0 <= i < self.irels.len() ==> (#[trigger] self.irels@[i]).events@.no_duplicates()
                && self.irels@[i].events.len() > 0
        &&& forall|i: int|
            0 <= i < self.irels.len() ==> self.is_node((#[trigger] self.irels@[i]).source) && self.is_node(
                self.irels@[i].target,
            )
        &&& self.net@.no_duplicates()
        &&& forall|s: usize, t: usize| #[trigger] self.net@.contains((s, t)) <==> self.related(s, t)
        &&& forall|o: int|
            0 <= o < self.node_attributes.len() && (#[trigger] self.node_attributes@[o]) is Some
                ==> self.node_attributes@[o]->Some_0.src_cut@.no_duplicates()
                && self.node_attributes@[o]->Some_0.tar_cut@.no_duplicates()
    }

    /// The external id of node `oid`, or an error when the graph has none.
    pub fn object_name(&self, oid: usize) -> (r: Result<String, MissingMapping>)
        ensures
            r is Ok ==> exists|i: int|
                0 <= i < self.object_map.len() && (#[trigger] self.object_map@[i]).1 == oid
                    && self.object_map@[i].0@ == r->Ok_0@,
            r is Err <==> forall|i: int| 0 <= i < self.object_map.len() ==> (#[trigger] self.object_map@[i]).1 != oid,
            r is Err ==> r->Err_0 == (MissingMapping { id: oid }),
    {
        let mut i: usize = 0;
        while i < self.object_map.len()
            invariant
                i <= self.object_map.len(),
                forall|j: int| 0 <= j < i ==> (#[trigger] self.object_map@[j]).1 != oid,
            decreases self.object_map.len() - i,
        {
            if self.object_map[i].1 == oid {
                return Ok(self.object_map[i].0.clone());
            }
            i = i + 1;
        }
        Err(MissingMapping { id: oid })
    }

    /// The external id of event `eid`, or an error when it witnesses no relation of the graph.
    pub fn event_name(&self, eid: usize) -> (r: Result<String, MissingMapping>)
        ensures
            r is Ok ==> exists|i: int|
                0 <= i < self.event_map.len() && (#[trigger] self.event_map@[i]).1 == eid
                    && self.event_map@[i].0@ == r->Ok_0@,
            r is Err <==> forall|i: int| 0 <= i < self.event_map.len() ==> (#[trigger] self.event_map@[i]).1 != eid,
            r is Err ==> r->Err_0 == (MissingMapping { id: eid }),
    {
        let mut i: usize = 0;
        while i < self.event_map.len()
            invariant
                i <= self.event_map.len(),
                forall|j: int| 0 <= j < i ==> (#[trigger] self.event_map@[j]).1 != eid,
            decreases self.event_map.len() - i,
        {
            if self.event_map[i].1 == eid {
                return Ok(self.event_map[i].0.clone());
            }
            i = i + 1;
        }
        Err(MissingMapping { id: eid })
    }

    /// The number of edges of the directed graph.
    pub fn edge_count(&self) -> (r: usize)
        ensures
            r == self.net.len(),
    {
        self.net.len()
    }

    /// The index of the entry for `s -> t` of kind `k`, if there is one.
    pub fn find_relation(&self, s: usize, t: usize, k: Relations) -> (r: Option<usize>)
        ensures
            r is Some ==> r->Some_0 < self.irels.len() && self.key_at(r->Some_0 as int) == (s, t, k),
            r is None ==> !self.rel_exists(s, t, k),
    {
        let mut i: usize = 0;
        while i < self.irels.len()
            invariant
                i <= self.irels.len(),
                forall|j: int| 0 <= j < i ==> #[trigger] self.key_at(j) != (s, t, k),
            decreases self.irels.len() - i,
        {
            let en = &self.irels[i];
            if en.source == s && en.target == t && en.relation == k {
                return Some(i);
            }
            i = i + 1;
        }
        None
    }

    /// Whether an entry relates `s` to `t`.
    fn find_related(&self, s: usize, t: usize) -> (r: bool)
        ensures
            r == self.related(s, t),
    {
        let mut i: usize = 0;
        while i < self.irels.len()
            invariant
                i <= self.irels.len(),
                forall|j: int|
                    0 <= j < i ==> !((#[trigger] self.irels@[j]).source == s && self.irels@[j].target
                        == t),
            decreases self.irels.len() - i,
        {
            if self.irels[i].source == s && self.irels[i].target == t {
                return true;
            }
            i = i + 1;
        }
        false
    }

    /// Merges the witness `eids` into the entry for `edge` of kind `rel`,
    /// creating the entry, and the edge of `net`, when they are missing.
    pub fn apply_new_edges(&mut self, edge: (usize, usize), eids: EventAdd, rel: Relations)
        requires
            old(self).wf(),
            old(self).is_node(edge.0),
            old(self).is_node(edge.1),
            exists|e: usize| eids.event_set().contains(e),
        ensures
            final(self).wf(),
            final(self).node_attributes@ == old(self).node_attributes@,
            final(self).object_map@ == old(self).object_map@,
            final(self).event_map@ == old(self).event_map@,
            final(self).irels.len() >= old(self).irels.len(),
            forall|i: int|
                0 <= i < old(self).irels.len() ==> #[trigger] final(self).key_at(i) == old(self).key_at(
                    i,
                ),
            forall|i: int|
                0 <= i < old(self).irels.len() && old(self).key_at(i) != (edge.0, edge.1, rel)
                    ==> #[trigger] final(self).events_at(i) == old(self).events_at(i),
            forall|i: int|
                0 <= i < old(self).irels.len() && old(self).key_at(i) == (edge.0, edge.1, rel)
                    ==> #[trigger] final(self).events_at(i) == old(self).events_at(i).union(
                    eids.event_set(),
                ),
            forall|i: int|
                old(self).irels.len() <= i < final(self).irels.len() ==> #[trigger] final(self).key_at(
                    i,
                ) == (edge.0, edge.1, rel) && final(self).events_at(i) == eids.event_set(),
            final(self).rel_exists(edge.0, edge.1, rel),
            forall|s: usize, t: usize, k: Relations|
                old(self).rel_exists(s, t, k) ==> #[trigger] final(self).rel_exists(s, t, k),
    {
        let (s, t) = edge;
        match self.find_relation(s, t, rel) {
            Some(i) => {
                let v = eids.to_vec();
                let ghost old_irels = self.irels@;
                extend_ids(&mut self.irels[i].events, &v);
                proof {
                    assert forall|j: int| 0 <= j < self.irels.len() && j != i implies #[trigger] self.irels@[j]
                        == old_irels[j] by {}
                    assert forall|a: usize, b: usize| #[trigger] self.net@.contains((a, b)) <==> self.related(a, b) by {
                        if old(self).related(a, b) {
                            let j = choose|j: int|
                                0 <= j < old_irels.len() && (#[trigger] old_irels[j]).source == a
                                    && old_irels[j].target == b;
                            assert(self.irels@[j].source == a);
                        }
                        if self.related(a, b) {
                            let j = choose|j: int|
                                0 <= j < self.irels.len() && (#[trigger] self.irels@[j]).source == a
                                    && self.irels@[j].target == b;
                            assert(old_irels[j].source == a);
                        }
                    }
                    assert(self.key_at(i as int) == (s, t, rel));
                    assert(self.irels@[i as int].key() == old_irels[i as int].key());
                    assert forall|a: usize, b: usize, k: Relations|
                        old(self).rel_exists(a, b, k) implies #[trigger] self.rel_exists(a, b, k) by {
                        let j = choose|j: int| 0 <= j < old_irels.len() && #[trigger] old(self).key_at(j) == (a, b, k);
                        assert(self.key_at(j) == (a, b, k));
                    }
                    assert forall|p: int, q: int|
                        0 <= p < self.irels.len() && 0 <= q < self.irels.len() && p != q implies #[trigger] self.key_at(
                            p,
                        ) != #[trigger] self.key_at(q) by {
                        assert(old(self).key_at(p) == self.key_at(p));
                        assert(old(self).key_at(q) == self.key_at(q));
                    }
                    assert forall|j: int| 0 <= j < self.irels.len() implies (#[trigger] self.irels@[j]).events@.no_duplicates() && self.irels@[j].events.len() > 0 && self.is_node(self.irels@[j].source) && self.is_node(self.irels@[j].target) by {
                        assert(old_irels[j].events@.no_duplicates());
                        assert(old_irels[j].events.len() > 0);
                        assert(old(self).is_node(old_irels[j].source));
                        if j == i {
                            let x = old_irels[j].events@[0];
                            assert(old_irels[j].events@.to_set().contains(x));
                            assert(self.irels@[j].events@.to_set().contains(x));
                        }
                    }
                }
            },
            None => {
                let ghost old_net = self.net@;
                let was_related = self.find_related(s, t);
                if !was_related {
                    self.net.push((s, t));
                    proof {
                        assert(!old_net.contains((s, t)));
                        assert forall|p: (usize, usize)| #[trigger] self.net@.contains(p) <==> old_net.contains(p) || p == (s, t) by {
                            if self.net@.contains(p) {
                                let m = choose|m: int| 0 <= m < self.net@.len() && self.net@[m] == p;
                                if m < old_net.len() {
                                    assert(old_net[m] == p);
                                }
                            }
                            if old_net.contains(p) {
                                let m = choose|m: int| 0 <= m < old_net.len() && old_net[m] == p;
                                assert(self.net@[m] == p);
                            }
                            if p == (s, t) {
                                assert(self.net@[old_net.len() as int] == p);
                            }
                        }
                    }
                }
                assert(self.net@.no_duplicates());
                assert(forall|p: (usize, usize)| #[trigger] self.net@.contains(p) <==> old_net.contains(p) || p == (s, t) || (p == (s, t) && was_related));
                let v = eids.to_vec();
                let ghost old_irels = self.irels@;
                self.irels.push(RelationEntry { source: s, target: t, relation: rel, events: v });
                proof {
                    let n = old_irels.len() as int;
                    assert(self.key_at(n) == (s, t, rel));
                    assert forall|a: usize, b: usize, k: Relations|
                        old(self).rel_exists(a, b, k) implies #[trigger] self.rel_exists(a, b, k) by {
                        let j = choose|j: int| 0 <= j < old_irels.len() && #[trigger] old(self).key_at(j) == (a, b, k);
                        assert(self.irels@[j] == old_irels[j]);
                        assert(self.key_at(j) == (a, b, k));
                    }
                    assert forall|j: int| 0 <= j < n implies #[trigger] self.irels@[j] == old_irels[j] by {}
                    assert forall|a: usize, b: usize| #[trigger] self.net@.contains((a, b)) <==> self.related(a, b) by {
                        if old(self).related(a, b) {
                            let j = choose|j: int|
                                0 <= j < old_irels.len() && (#[trigger] old_irels[j]).source == a
                                    && old_irels[j].target == b;
                            assert(self.irels@[j].source == a);
                        }
                        if self.related(a, b) {
                            let j = choose|j: int|
                                0 <= j < self.irels.len() && (#[trigger] self.irels@[j]).source == a
                                    && self.irels@[j].target == b;
                            if j < n {
                                assert(old_irels[j].source == a);
                            }
                        }
                        if a == s && b == t {
                            assert(self.irels@[n].source == a);
                            if was_related {
                                assert(old_net.contains((s, t)));
                            }
                        }
                        assert(self.net@.contains((a, b)) <==> old_net.contains((a, b)) || (a == s && b == t));
                    }
                    assert forall|j: int| 0 <= j < self.irels.len() implies (#[trigger] self.irels@[j]).events@.no_duplicates() && self.irels@[j].events.len() > 0 && self.is_node(self.irels@[j].source) && self.is_node(self.irels@[j].target) by {
                        if j < n {
                            assert(old_irels[j].events@.no_duplicates());
                            assert(old_irels[j].events.len() > 0);
                            assert(old(self).is_node(old_irels[j].source));
                        } else {
                            let e = choose|e: usize| eids.event_set().contains(e);
                            assert(self.irels@[j].events@.to_set().contains(e));
                        }
                    }
                    assert forall|p: int, q: int|
                        0 <= p < self.irels.len() && 0 <= q < self.irels.len() && p != q implies #[trigger] self.key_at(
                            p,
                        ) != #[trigger] self.key_at(q) by {
                        if p == n {
                            assert(old(self).key_at(q) == self.key_at(q));
                        } else if q == n {
                            assert(old(self).key_at(p) == self.key_at(p));
                        } else {
                            assert(old(self).key_at(p) == self.key_at(p));
                            assert(old(self).key_at(q) == self.key_at(q));
                        }
                    }
                }
            },
        }
    }
}

proof fn lemma_proposes_append(r: Seq<Proposal>, x: Seq<Proposal>)
    ensures
        forall|s: usize, t: usize, k: Relations|
            proposes(r, s, t, k) || proposes(x, s, t, k) ==> #[trigger] proposes(r + x, s, t, k),
{
    assert forall|s: usize, t: usize, k: Relations|
        proposes(r, s, t, k) || proposes(x, s, t, k) implies #[trigger] proposes(r + x, s, t, k) by {
        if proposes(r, s, t, k) {
            let i = choose|i: int| 0 <= i < r.len() && (#[trigger] r[i]).0 == s && r[i].1 == t && r[i].3 == k;
            assert((r + x)[i] == r[i]);
        } else {
            let i = choose|i: int| 0 <= i < x.len() && (#[trigger] x[i]).0 == s && x[i].1 == t && x[i].3 == k;
            assert((r + x)[r.len() + i] == x[i]);
        }
    }
}

proof fn lemma_two_distinct(v: Seq<usize>, a: usize, b: usize)
    requires
        v.contains(a),
        v.contains(b),
        a != b,
    ensures
        v.len() > 1,
{
    let i = choose|i: int| 0 <= i < v.len() && v[i] == a;
    let j = choose|j: int| 0 <= j < v.len() && v[j] == b;
    assert(i != j);
}

proof fn lemma_co_occur_nodes(log: &Ocel, a: usize, b: usize)
    requires
        log.co_occur(a, b),
    ensures
        log.is_node(a),
        log.is_node(b),
        log.co_occur(b, a),
{
    let e = choose|e: usize| #[trigger] log.in_event(e, a) && log.in_event(e, b);
    assert(log.in_event(e, b));
}

impl Relations {
    /// Evaluates this kind on the whole neighbourhood of `oid1`. Only Split is
    /// such a kind: when at least two neighbours of `oid1`'s type begin with the
    /// event in which `oid1` ends, it proposes an edge to each of them.
    pub fn execute_whole(&self, log: &Ocel, neighs: &NeighbourIndex, oid1: usize) -> (r: Vec<Proposal>)
        requires
            log.wf(),
            neighs.index_of(log),
            log.is_node(oid1),
        ensures
            forall|i: int| 0 <= i < r.len() ==> proposal_ok(log, oid1, #[trigger] r@[i]),
            forall|i: int| 0 <= i < r.len() ==> (#[trigger] r@[i]).3 == Relations::SPLIT,
            *self == Relations::SPLIT ==> forall|t: usize|
                expected(log, Relations::SPLIT, oid1, t) ==> #[trigger] proposes(r@, oid1, t, Relations::SPLIT),
            *self != Relations::SPLIT ==> r.len() == 0,
            forall|i: int|
                0 <= i < r.len() ==> (#[trigger] r@[i]).0 == oid1 && r@[i].2 == EventAdd::SINGLE(
                    log.ev(oid1).last(),
                ),
            forall|i: int, j: int| 0 <= i < j < r.len() ==> (#[trigger] r@[i]).1 != (#[trigger] r@[j]).1,
    {
        let mut to_add: Vec<Proposal> = Vec::new();
        match self {
            Relations::SPLIT => {
                let src_oe = &log.objects[oid1].events;
                let src_e = src_oe[src_oe.len() - 1];
                let src_type = &log.objects[oid1].obj_type;
                let nb = &neighs.neighbours[oid1];
                let mut conforming: Vec<usize> = Vec::new();
                let mut j: usize = 0;
                while j < nb.len()
                    invariant
                        log.wf(),
                        neighs.index_of(log),
                        oid1 < log.objects.len(),
                        nb@ == neighs.neighbours@[oid1 as int]@,
                        src_e == log.ev(oid1).last(),
                        src_type@ == log.otype(oid1),
                        j <= nb.len(),
                        conforming@.no_duplicates(),
                        forall|x: usize| #[trigger] conforming@.contains(x) ==> split_candidate(log, oid1, x),
                        forall|m: int| 0 <= m < j && split_candidate(log, oid1, #[trigger] nb@[m]) ==> conforming@.contains(nb@[m]),
                    decreases nb.len() - j,
                {
                    let c = nb[j];
                    assert(log.co_occur(oid1, c));
                    let ghost c0 = conforming@;
                    if log.objects[c].obj_type == *src_type && log.objects[c].events[0] == src_e {
                        insert_id(&mut conforming, c);
                        proof {
                            assert forall|x: usize| #[trigger] conforming@.contains(x) <==> c0.contains(x) || x == c by {
                                assert(conforming@.to_set().contains(x) == conforming@.contains(x));
                                assert(c0.to_set().contains(x) == c0.contains(x));
                            }
                        }
                    }
                    j = j + 1;
                }
                if conforming.len() > 1 {
                    proof {
                        assert(conforming@[0] != conforming@[1]);
                        assert(conforming@.contains(conforming@[0]));
                        assert(conforming@.contains(conforming@[1]));
                    }
                    let mut m: usize = 0;
                    while m < conforming.len()
                        invariant
                            log.wf(),
                            oid1 < log.objects.len(),
                            src_e == log.ev(oid1).last(),
                            conforming.len() > 1,
                            conforming@[0] != conforming@[1],
                            forall|x: usize| #[trigger] conforming@.contains(x) ==> split_candidate(log, oid1, x),
                            m <= conforming.len(),
                            conforming@.no_duplicates(),
                            to_add.len() == m,
                            forall|q: int| 0 <= q < m ==> #[trigger] to_add@[q] == (oid1, conforming@[q], EventAdd::SINGLE(src_e), Relations::SPLIT),
                            forall|q: int| 0 <= q < m ==> proposal_ok(log, oid1, #[trigger] to_add@[q]),
                        decreases conforming.len() - m,
                    {
                        let t = conforming[m];
                        proof {
                            assert(conforming@.contains(t));
                            assert(conforming@.contains(conforming@[0]));
                            assert(conforming@.contains(conforming@[1]));
                            if t == conforming@[0] {
                                assert(split_candidate(log, oid1, conforming@[1]));
                            } else {
                                assert(split_candidate(log, oid1, conforming@[0]));
                            }
                            assert(pair_holds(log, Relations::SPLIT, oid1, t));
                            assert(EventAdd::SINGLE(src_e).event_set() == pair_witness(log, Relations::SPLIT, oid1, t));
                        }
                        to_add.push((oid1, t, EventAdd::SINGLE(src_e), Relations::SPLIT));
                        m = m + 1;
                    }
                    proof {
                        assert forall|t: usize| expected(log, Relations::SPLIT, oid1, t) implies #[trigger] proposes(to_add@, oid1, t, Relations::SPLIT) by {
                            let c = choose|c: usize| c != t && #[trigger] split_candidate(log, oid1, c);
                            assert(log.co_occur(oid1, t));
                            let pt = choose|p: int| 0 <= p < conforming.len() && conforming@[p] == t;
                            assert(to_add@[pt].0 == oid1);
                        }
                    }
                } else {
                    proof {
                        assert forall|t: usize| !expected(log, Relations::SPLIT, oid1, t) by {
                            if expected(log, Relations::SPLIT, oid1, t) {
                                let c = choose|c: usize| c != t && #[trigger] split_candidate(log, oid1, c);
                                let pt = choose|p: int| 0 <= p < nb.len() && nb@[p] == t;
                                let pc = choose|p: int| 0 <= p < nb.len() && nb@[p] == c;
                                assert(split_candidate(log, oid1, nb@[pt]));
                                assert(split_candidate(log, oid1, nb@[pc]));
                                lemma_two_distinct(conforming@, t, c);
                            }
                        }
                    }
                }
            },
            _ => {},
        }
        to_add
    }
}

/// The pair of `oid1` and its neighbour `b` is fully proposed in `r` for kind `k`.
pub open spec fn pair_covered(log: &Ocel, r: Seq<Proposal>, oid1: usize, b: usize, k: Relations) -> bool {
    &&& (expected(log, k, oid1, b) && owner(k, oid1, b) == oid1 ==> proposes(r, oid1, b, k))
    &&& (expected(log, k, b, oid1) && owner(k, b, oid1) == oid1 ==> proposes(r, b, oid1, k))
}

proof fn lemma_covered_append(log: &Ocel, r: Seq<Proposal>, x: Seq<Proposal>, oid1: usize)
    ensures
        forall|b: usize, k: Relations|
            #[trigger] pair_covered(log, r, oid1, b, k) ==> pair_covered(log, r + x, oid1, b, k),
        forall|b: usize, k: Relations|
            #[trigger] pair_covered(log, x, oid1, b, k) ==> pair_covered(log, r + x, oid1, b, k),
{
    lemma_proposes_append(r, x);
}

/// All the edges that the evaluation of object `oid1` proposes: those of the
/// whole-instance kinds `rel_whole`, and those of the pairwise kinds `rel_inst`
/// with each of its neighbours.
pub fn whole_instance_edges(
    log: &Ocel,
    neighs: &NeighbourIndex,
    oid1: usize,
    rel_whole: &Vec<Relations>,
    rel_inst: &Vec<Relations>,
) -> (r: Vec<Proposal>)
    requires
        log.wf(),
        neighs.index_of(log),
        log.is_node(oid1),
        forall|i: int| 0 <= i < rel_whole.len() ==> #[trigger] rel_whole@[i] == Relations::SPLIT,
        forall|i: int| 0 <= i < rel_inst.len() ==> #[trigger] rel_inst@[i] != Relations::SPLIT,
    ensures
        forall|i: int| 0 <= i < r.len() ==> proposal_ok(log, oid1, #[trigger] r@[i]),
        forall|i: int|
            0 <= i < r.len() ==> rel_whole@.contains((#[trigger] r@[i]).3) || rel_inst@.contains(r@[i].3),
        forall|s: usize, t: usize, k: Relations|
            (rel_whole@.contains(k) || rel_inst@.contains(k)) && owner(k, s, t) == oid1 && expected(
                log,
                k,
                s,
                t,
            ) ==> #[trigger] proposes(r@, s, t, k),
{
    let mut oid_edges: Vec<Proposal> = Vec::new();
    let mut w: usize = 0;
    while w < rel_whole.len()
        invariant
            log.wf(),
            neighs.index_of(log),
            log.is_node(oid1),
            forall|i: int| 0 <= i < rel_whole.len() ==> #[trigger] rel_whole@[i] == Relations::SPLIT,
            w <= rel_whole.len(),
            forall|i: int| 0 <= i < oid_edges.len() ==> proposal_ok(log, oid1, #[trigger] oid_edges@[i]),
            forall|i: int| 0 <= i < oid_edges.len() ==> (#[trigger] oid_edges@[i]).3 == Relations::SPLIT,
            w > 0 ==> forall|t: usize|
                expected(log, Relations::SPLIT, oid1, t) ==> #[trigger] proposes(oid_edges@, oid1, t, Relations::SPLIT),
            oid_edges.len() > 0 ==> w > 0,
        decreases rel_whole.len() - w,
    {
        let mut v = rel_whole[w].execute_whole(log, neighs, oid1);
        let ghost r0 = oid_edges@;
        let ghost v0 = v@;
        oid_edges.append(&mut v);
        proof {
            lemma_proposes_append(r0, v0);
            assert(oid_edges@ == r0 + v0);
            assert forall|i: int| 0 <= i < oid_edges.len() implies proposal_ok(log, oid1, #[trigger] oid_edges@[i]) && oid_edges@[i].3 == Relations::SPLIT by {
                if i >= r0.len() {
                    assert(oid_edges@[i] == v0[i - r0.len()]);
                }
            }
        }
        w = w + 1;
    }
    proof {
        if oid_edges.len() > 0 {
            assert(rel_whole@[0] == Relations::SPLIT);
            assert(rel_whole@.contains(Relations::SPLIT));
        }
    }
    let nb = &neighs.neighbours[oid1];
    let mut m: usize = 0;
    while m < nb.len()
        invariant
            log.wf(),
            neighs.index_of(log),
            log.is_node(oid1),
            oid1 < log.objects.len(),
            nb@ == neighs.neighbours@[oid1 as int]@,
            forall|i: int| 0 <= i < rel_whole.len() ==> #[trigger] rel_whole@[i] == Relations::SPLIT,
            forall|i: int| 0 <= i < rel_inst.len() ==> #[trigger] rel_inst@[i] != Relations::SPLIT,
            m <= nb.len(),
            forall|i: int| 0 <= i < oid_edges.len() ==> proposal_ok(log, oid1, #[trigger] oid_edges@[i]),
            forall|i: int|
                0 <= i < oid_edges.len() ==> rel_whole@.contains((#[trigger] oid_edges@[i]).3) || rel_inst@.contains(oid_edges@[i].3),
            rel_whole.len() > 0 ==> forall|t: usize|
                expected(log, Relations::SPLIT, oid1, t) ==> #[trigger] proposes(oid_edges@, oid1, t, Relations::SPLIT),
            forall|p: int, q: int|
                0 <= p < m && 0 <= q < rel_inst.len() ==> pair_covered(log, oid_edges@, oid1, #[trigger] nb@[p], #[trigger] rel_inst@[q]),
        decreases nb.len() - m,
    {
        let b = nb[m];
        assert(log.co_occur(oid1, b));
        let mut q: usize = 0;
        while q < rel_inst.len()
            invariant
                log.wf(),
                log.co_occur(oid1, b),
                b == nb@[m as int],
                m < nb.len(),
                forall|i: int| 0 <= i < rel_inst.len() ==> #[trigger] rel_inst@[i] != Relations::SPLIT,
                q <= rel_inst.len(),
                forall|i: int| 0 <= i < oid_edges.len() ==> proposal_ok(log, oid1, #[trigger] oid_edges@[i]),
                forall|i: int|
                    0 <= i < oid_edges.len() ==> rel_whole@.contains((#[trigger] oid_edges@[i]).3) || rel_inst@.contains(oid_edges@[i].3),
                rel_whole.len() > 0 ==> forall|t: usize|
                    expected(log, Relations::SPLIT, oid1, t) ==> #[trigger] proposes(oid_edges@, oid1, t, Relations::SPLIT),
                forall|p: int, q2: int|
                    0 <= p < m && 0 <= q2 < rel_inst.len() ==> pair_covered(log, oid_edges@, oid1, #[trigger] nb@[p], #[trigger] rel_inst@[q2]),
                forall|q2: int| 0 <= q2 < q ==> pair_covered(log, oid_edges@, oid1, b, #[trigger] rel_inst@[q2]),
            decreases rel_inst.len() - q,
        {
            let k = rel_inst[q];
            let mut v = k.execute(log, oid1, b);
            let ghost r0 = oid_edges@;
            let ghost v0 = v@;
            oid_edges.append(&mut v);
            proof {
                lemma_proposes_append(r0, v0);
                lemma_covered_append(log, r0, v0, oid1);
                assert(oid_edges@ == r0 + v0);
                assert(pair_covered(log, v0, oid1, b, k));
                assert forall|i: int| 0 <= i < oid_edges.len() implies proposal_ok(log, oid1, #[trigger] oid_edges@[i]) && (rel_whole@.contains(oid_edges@[i].3) || rel_inst@.contains(oid_edges@[i].3)) by {
                    if i >= r0.len() {
                        assert(oid_edges@[i] == v0[i - r0.len()]);
                        assert(rel_inst@[q as int] == k);
                    }
                }
            }
            q = q + 1;
        }
        m = m + 1;
    }
    proof {
        assert forall|s: usize, t: usize, k: Relations|
            (rel_whole@.contains(k) || rel_inst@.contains(k)) && owner(k, s, t) == oid1 && expected(
                log,
                k,
                s,
                t,
            ) implies #[trigger] proposes(oid_edges@, s, t, k) by {
            if k == Relations::SPLIT {
                if rel_inst@.contains(k) {
                    let qi = choose|qi: int| 0 <= qi < rel_inst.len() && rel_inst@[qi] == k;
                    assert(rel_inst@[qi] != Relations::SPLIT);
                }
                assert(rel_whole.len() > 0);
            } else {
                if rel_whole@.contains(k) {
                    let wi = choose|wi: int| 0 <= wi < rel_whole.len() && rel_whole@[wi] == k;
                    assert(rel_whole@[wi] == Relations::SPLIT);
                }
                let qi = choose|qi: int| 0 <= qi < rel_inst.len() && rel_inst@[qi] == k;
                let b = if s == oid1 { t } else { s };
                lemma_co_occur_nodes(log, s, t);
                assert(log.co_occur(oid1, b));
                assert(nb@.contains(b));
                let p = choose|p: int| 0 <= p < nb.len() && nb@[p] == b;
                assert(pair_covered(log, oid_edges@, oid1, nb@[p], rel_inst@[qi]));
            }
        }
    }
    oid_edges
}

/// Every relation that holds in a log is witnessed by at least one event.
pub proof fn lemma_witness_nonempty(log: &Ocel, k: Relations, s: usize, t: usize)
    requires
        log.wf(),
        expected(log, k, s, t),
    ensures
        exists|x: usize| pair_witness(log, k, s, t).contains(x),
{
    let e = choose|e: usize| #[trigger] log.in_event(e, s) && log.in_event(e, t);
    assert(log.in_event(e, t));
    let es = log.ev(s);
    let et = log.ev(t);
    assert(es.contains(e) && et.contains(e));
    assert(es.len() > 0 && et.len() > 0);
    assert(es.to_set().contains(e));
    assert(et.to_set().contains(e));
    assert(peeler_shorter(log, s, t).len() > 0);
    assert(peeler_shorter(log, s, t).to_set().contains(peeler_shorter(log, s, t)[0]));
    assert(et.to_set().contains(et[0]));
    match k {
        Relations::INTERACTS | Relations::ENGAGES | Relations::COLIFE | Relations::MINION => {
            assert(pair_witness(log, k, s, t).contains(e));
        },
        Relations::COBIRTH | Relations::ASCENDANTS => {
            assert(pair_witness(log, k, s, t).contains(es[0]));
        },
        Relations::DESCENDANTS => {
            assert(pair_witness(log, k, s, t).contains(et[0]));
        },
        Relations::PEELER => {
            assert(pair_witness(log, k, s, t).contains(peeler_shorter(log, s, t)[0]));
        },
        _ => {
            assert(pair_witness(log, k, s, t).contains(es.last()));
        },
    }
}

proof fn lemma_witness_known(log: &Ocel, k: Relations, s: usize, t: usize)
    requires
        log.wf(),
        log.co_occur(s, t),
    ensures
        forall|e: usize| #[trigger] pair_witness(log, k, s, t).contains(e) ==> e < log.events.len(),
{
    let es = log.ev(s);
    let et = log.ev(t);
    assert forall|e: usize| #[trigger] pair_witness(log, k, s, t).contains(e) implies e < log.events.len() by {
        if es.contains(e) {
            let j = choose|j: int| 0 <= j < es.len() && es[j] == e;
            assert(log.objects@[s as int].events@[j] < log.events.len());
        } else if et.contains(e) {
            let j = choose|j: int| 0 <= j < et.len() && et[j] == e;
            assert(log.objects@[t as int].events@[j] < log.events.len());
        } else {
            assert(log.objects@[s as int].events@[0] < log.events.len());
            assert(log.objects@[t as int].events@[0] < log.events.len());
            assert(log.objects@[s as int].events@[es.len() - 1] < log.events.len());
            assert(log.objects@[t as int].events@[et.len() - 1] < log.events.len());
            match k {
                Relations::PEELER => {
                    assert(peeler_shorter(log, s, t) == es || peeler_shorter(log, s, t) == et);
                },
                _ => {},
            }
        }
    }
}

/// The graph holds the relations of `log` of the kinds in `relations`, and no other.
pub open spec fn relations_of(g: &Ocdg, log: &Ocel, relations: Seq<Relations>) -> bool {
    &&& forall|i: int|
        0 <= i < g.irels.len() ==> relations.contains((#[trigger] g.irels@[i]).relation) && expected(
            log,
            g.irels@[i].relation,
            g.irels@[i].source,
            g.irels@[i].target,
        ) && g.events_at(i) == pair_witness(
            log,
            g.irels@[i].relation,
            g.irels@[i].source,
            g.irels@[i].target,
        )
    &&& forall|s: usize, t: usize, k: Relations|
        relations.contains(k) && expected(log, k, s, t) ==> #[trigger] g.rel_exists(s, t, k)
}

/// The nodes of the graph are the objects of `log` that take part in an event,
/// with their types and without cuts, and `object_map` gives the external id of each.
pub open spec fn nodes_of(g: &Ocdg, log: &Ocel) -> bool {
    &&& g.node_attributes.len() == log.objects.len()
    &&& forall|o: usize| o < log.objects.len() ==> (#[trigger] g.is_node(o) <==> log.is_node(o))
    &&& forall|o: usize|
        #[trigger] g.is_node(o) ==> g.node_type_of(o) == log.otype(o)
            && g.node_attributes@[o as int]->Some_0.src_cut.len() == 0
            && g.node_attributes@[o as int]->Some_0.tar_cut.len() == 0
    &&& forall|i: int|
        0 <= i < g.object_map.len() ==> g.is_node((#[trigger] g.object_map@[i]).1)
            && g.object_map@[i].0@ == log.object_map@[g.object_map@[i].1 as int]@
    &&& forall|o: usize| #[trigger] g.is_node(o) ==> exists|i: int| 0 <= i < g.object_map.len() && (#[trigger] g.object_map@[i]).1 == o
}

/// `event_map` holds each event that witnesses a relation of the graph, with its
/// external id in `log`, and no other.
pub open spec fn events_of(g: &Ocdg, log: &Ocel) -> bool {
    &&& forall|i: int|
        0 <= i < g.event_map.len() ==> (#[trigger] g.event_map@[i]).1 < log.events.len()
            && g.event_map@[i].0@ == log.event_map@[g.event_map@[i].1 as int]@
            && exists|j: int| 0 <= j < g.irels.len() && (#[trigger] g.irels@[j]).events@.contains(g.event_map@[i].1)
    &&& forall|j: int, e: usize|
        0 <= j < g.irels.len() && #[trigger] g.irels@[j].events@.contains(e) ==> exists|i: int|
            0 <= i < g.event_map.len() && (#[trigger] g.event_map@[i]).1 == e
}

/// Parts the requested kinds into the whole-instance ones and the pairwise ones.
fn split_relations(relations: &Vec<Relations>) -> (r: (Vec<Relations>, Vec<Relations>))
    ensures
        forall|i: int| 0 <= i < r.0.len() ==> #[trigger] r.0@[i] == Relations::SPLIT,
        forall|i: int| 0 <= i < r.1.len() ==> #[trigger] r.1@[i] != Relations::SPLIT,
        forall|k: Relations| #[trigger] relations@.contains(k) <==> r.0@.contains(k) || r.1@.contains(k),
{
    let mut rel_whole: Vec<Relations> = Vec::new();
    let mut rel_inst: Vec<Relations> = Vec::new();
    let mut i: usize = 0;
    while i < relations.len()
        invariant
            i <= relations.len(),
            forall|j: int| 0 <= j < rel_whole.len() ==> #[trigger] rel_whole@[j] == Relations::SPLIT,
            forall|j: int| 0 <= j < rel_inst.len() ==> #[trigger] rel_inst@[j] != Relations::SPLIT,
            forall|k: Relations|
                relations@.subrange(0, i as int).contains(k) <==> #[trigger] rel_whole@.contains(k) || rel_inst@.contains(k),
        decreases relations.len() - i,
    {
        let k = relations[i];
        let ghost w0 = rel_whole@;
        let ghost n0 = rel_inst@;
        assert(forall|x: Relations| #![trigger w0.contains(x)] #![trigger n0.contains(x)] relations@.subrange(0, i as int).contains(x) <==> w0.contains(x) || n0.contains(x));
        let whole = k.relation_type() == 1;
        if whole {
            rel_whole.push(k);
        } else {
            rel_inst.push(k);
        }
        proof {
            assert(relations@.subrange(0, i + 1) =~= relations@.subrange(0, i as int).push(k));
            assert forall|x: Relations|
                relations@.subrange(0, i + 1).contains(x) <==> #[trigger] rel_whole@.contains(x) || rel_inst@.contains(x) by {
                if relations@.subrange(0, i + 1).contains(x) {
                    let j = choose|j: int| 0 <= j < i + 1 && #[trigger] relations@.subrange(0, i + 1)[j] == x;
                    if j < i {
                        assert(relations@.subrange(0, i as int)[j] == x);
                        if w0.contains(x) {
                            let p = choose|p: int| 0 <= p < w0.len() && w0[p] == x;
                            assert(rel_whole@[p] == x);
                        } else {
                            let p = choose|p: int| 0 <= p < n0.len() && n0[p] == x;
                            assert(rel_inst@[p] == x);
                        }
                    } else {
                        if whole {
                            assert(rel_whole@[w0.len() as int] == x);
                        } else {
                            assert(rel_inst@[n0.len() as int] == x);
                        }
                    }
                }
                if rel_whole@.contains(x) || rel_inst@.contains(x) {
                    if x == k {
                        assert(relations@.subrange(0, i + 1)[i as int] == x);
                    } else {
                        if rel_whole@.contains(x) {
                            let p = choose|p: int| 0 <= p < rel_whole.len() && rel_whole@[p] == x;
                            assert(w0[p] == x);
                            assert(w0.contains(x));
                        } else {
                            let p = choose|p: int| 0 <= p < rel_inst.len() && rel_inst@[p] == x;
                            assert(n0[p] == x);
                            assert(n0.contains(x));
                        }
                        assert(relations@.subrange(0, i as int).contains(x));
                        let j = choose|j: int| 0 <= j < i && #[trigger] relations@.subrange(0, i as int)[j] == x;
                        assert(relations@.subrange(0, i + 1)[j] == x);
                    }
                }
            }
        }
        i = i + 1;
    }
    assert(relations@.subrange(0, relations.len() as int) =~= relations@);
    (rel_whole, rel_inst)
}

/// The graph of `log` without edges: one node for each object that takes part
/// in an event.
fn init_nodes(log: &Ocel, neighs: &NeighbourIndex) -> (g: Ocdg)
    requires
        log.wf(),
        neighs.index_of(log),
    ensures
        g.wf(),
        nodes_of(&g, log),
        g.irels.len() == 0,
        g.net.len() == 0,
        g.event_map.len() == 0,
{
    let mut node_attributes: Vec<Option<NodeInfo>> = Vec::new();
    let mut object_map: Vec<(String, usize)> = Vec::new();
    let mut o: usize = 0;
    while o < log.objects.len()
        invariant
            log.wf(),
            neighs.index_of(log),
            o <= log.objects.len(),
            node_attributes.len() == o,
            forall|p: usize| p < o ==> (node_attributes@[p as int] is Some <==> #[trigger] log.is_node(p)),
            forall|p: usize|
                p < o && node_attributes@[p as int] is Some ==> (#[trigger] node_attributes@[p as int])->Some_0.node_type@
                    == log.otype(p) && node_attributes@[p as int]->Some_0.src_cut.len() == 0
                    && node_attributes@[p as int]->Some_0.tar_cut.len() == 0,
            forall|i: int|
                0 <= i < object_map.len() ==> (#[trigger] object_map@[i]).1 < o && log.is_node(object_map@[i].1)
                    && object_map@[i].0@ == log.object_map@[object_map@[i].1 as int]@,
            forall|p: usize| p < o && log.is_node(p) ==> exists|i: int| 0 <= i < object_map.len() && (#[trigger] object_map@[i]).1 == p,
        decreases log.objects.len() - o,
    {
        if neighs.nodes[o] {
            let info = NodeInfo {
                node_type: log.objects[o].obj_type.clone(),
                src_cut: Vec::new(),
                tar_cut: Vec::new(),
            };
            node_attributes.push(Some(info));
            let ghost m0 = object_map@;
            object_map.push((log.object_map[o].clone(), o));
            proof {
                assert(object_map@[m0.len() as int].1 == o);
                assert forall|p: usize| p < o + 1 && log.is_node(p) implies exists|i: int| 0 <= i < object_map.len() && (#[trigger] object_map@[i]).1 == p by {
                    if p < o {
                        let i = choose|i: int| 0 <= i < m0.len() && (#[trigger] m0[i]).1 == p;
                        assert(object_map@[i] == m0[i]);
                    } else {
                        assert(object_map@[m0.len() as int].1 == p);
                    }
                }
            }
        } else {
            node_attributes.push(None);
        }
        o = o + 1;
    }
    let g = Ocdg {
        net: Vec::new(),
        node_attributes,
        object_map,
        event_map: Vec::new(),
        irels: Vec::new(),
    };
    proof {
        assert forall|p: usize| #[trigger] g.is_node(p) implies g.node_type_of(p) == log.otype(p)
            && g.node_attributes@[p as int]->Some_0.src_cut.len() == 0
            && g.node_attributes@[p as int]->Some_0.tar_cut.len() == 0 by {
            assert(p < o);
        }
        assert forall|p: usize| p < log.objects.len() implies (#[trigger] g.is_node(p) <==> log.is_node(p)) by {}
        assert forall|i: int|
            0 <= i < g.object_map.len() implies g.is_node((#[trigger] g.object_map@[i]).1)
                && g.object_map@[i].0@ == log.object_map@[g.object_map@[i].1 as int]@ by {
            assert(log.is_node(g.object_map@[i].1));
        }
        assert forall|p: usize| #[trigger] g.is_node(p) implies exists|i: int| 0 <= i < g.object_map.len() && (#[trigger] g.object_map@[i]).1 == p by {
            assert(p < o);
            assert(log.is_node(p));
            let i = choose|i: int| 0 <= i < object_map.len() && (#[trigger] object_map@[i]).1 == p;
            assert(g.object_map@[i].1 == p);
        }
        assert forall|s: usize, t: usize| #[trigger] g.net@.contains((s, t)) <==> g.related(s, t) by {}
    }
    g
}

proof fn lemma_same_graph(g0: &Ocdg, g1: &Ocdg, log: &Ocel, relations: Seq<Relations>)
    requires
        g0.irels@ == g1.irels@,
        g0.net@ == g1.net@,
        g0.node_attributes@ == g1.node_attributes@,
        g0.object_map@ == g1.object_map@,
    ensures
        g0.wf() ==> g1.wf(),
        nodes_of(g0, log) ==> nodes_of(g1, log),
        relations_of(g0, log, relations) ==> relations_of(g1, log, relations),
{
    assert forall|i: int| 0 <= i < g1.irels.len() implies #[trigger] g1.key_at(i) == g0.key_at(i) && g1.events_at(i) == g0.events_at(i) by {}
    assert forall|s: usize, t: usize, k: Relations| #[trigger] g1.rel_exists(s, t, k) <==> g0.rel_exists(s, t, k) by {
        if g0.rel_exists(s, t, k) {
            let i = choose|i: int| 0 <= i < g0.irels.len() && #[trigger] g0.key_at(i) == (s, t, k);
            assert(g1.key_at(i) == (s, t, k));
        }
        if g1.rel_exists(s, t, k) {
            let i = choose|i: int| 0 <= i < g1.irels.len() && #[trigger] g1.key_at(i) == (s, t, k);
            assert(g0.key_at(i) == (s, t, k));
        }
    }
    assert forall|s: usize, t: usize| #[trigger] g1.related(s, t) <==> g0.related(s, t) by {
        if g0.related(s, t) {
            let i = choose|i: int| 0 <= i < g0.irels.len() && (#[trigger] g0.irels@[i]).source == s && g0.irels@[i].target == t;
            assert(g1.irels@[i].source == s);
        }
        if g1.related(s, t) {
            let i = choose|i: int| 0 <= i < g1.irels.len() && (#[trigger] g1.irels@[i]).source == s && g1.irels@[i].target == t;
            assert(g0.irels@[i].source == s);
        }
    }
    assert forall|o: usize| #[trigger] g1.is_node(o) <==> g0.is_node(o) by {}
    if nodes_of(g0, log) {
        assert forall|o: usize| #[trigger] g1.is_node(o) implies exists|i: int| 0 <= i < g1.object_map.len() && (#[trigger] g1.object_map@[i]).1 == o by {
            assert(g0.is_node(o));
            let i = choose|i: int| 0 <= i < g0.object_map.len() && (#[trigger] g0.object_map@[i]).1 == o;
            assert(g1.object_map@[i].1 == o);
        }
    }
}

proof fn lemma_same_nodes(g0: &Ocdg, g1: &Ocdg, log: &Ocel)
    requires
        g0.node_attributes@ == g1.node_attributes@,
        g0.object_map@ == g1.object_map@,
        nodes_of(g0, log),
    ensures
        nodes_of(g1, log),
{
    assert forall|o: usize| #[trigger] g1.is_node(o) <==> g0.is_node(o) by {}
    assert forall|o: usize| #[trigger] g1.is_node(o) implies exists|i: int| 0 <= i < g1.object_map.len() && (#[trigger] g1.object_map@[i]).1 == o by {
        assert(g0.is_node(o));
        let i = choose|i: int| 0 <= i < g0.object_map.len() && (#[trigger] g0.object_map@[i]).1 == o;
        assert(g1.object_map@[i].1 == o);
    }
}

impl Ocdg {
    /// Fills `event_map` with every event that witnesses an entry, once, with
    /// its external id in `log`.
    fn register_events(&mut self, log: &Ocel)
        requires
            old(self).wf(),
            old(self).event_map.len() == 0,
            log.event_map.len() == log.events.len(),
            forall|j: int, e: usize|
                0 <= j < old(self).irels.len() && #[trigger] old(self).irels@[j].events@.contains(e) ==> e
                    < log.events.len(),
        ensures
            final(self).wf(),
            events_of(final(self), log),
            final(self).irels@ == old(self).irels@,
            final(self).net@ == old(self).net@,
            final(self).node_attributes@ == old(self).node_attributes@,
            final(self).object_map@ == old(self).object_map@,
    {
        let n = log.events.len();
        let mut seen: Vec<bool> = Vec::new();
        let mut k: usize = 0;
        while k < n
            invariant
                k <= n,
                seen.len() == k,
                forall|e: int| 0 <= e < k ==> !seen@[e],
            decreases n - k,
        {
            seen.push(false);
            k = k + 1;
        }
        let mut j: usize = 0;
        while j < self.irels.len()
            invariant
                n == log.events.len(),
                log.event_map.len() == log.events.len(),
                seen.len() == n,
                j <= self.irels.len(),
                self.irels@ == old(self).irels@,
                self.net@ == old(self).net@,
                self.node_attributes@ == old(self).node_attributes@,
                self.object_map@ == old(self).object_map@,
                forall|jj: int, e: usize|
                    0 <= jj < self.irels.len() && #[trigger] self.irels@[jj].events@.contains(e) ==> e
                        < log.events.len(),
                forall|e: int| 0 <= e < n && #[trigger] seen@[e] ==> exists|i: int| 0 <= i < self.event_map.len() && (#[trigger] self.event_map@[i]).1 == e,
                forall|i: int|
                    0 <= i < self.event_map.len() ==> (#[trigger] self.event_map@[i]).1 < log.events.len()
                        && self.event_map@[i].0@ == log.event_map@[self.event_map@[i].1 as int]@
                        && exists|jj: int| 0 <= jj < self.irels.len() && (#[trigger] self.irels@[jj]).events@.contains(self.event_map@[i].1),
                forall|jj: int, e: usize|
                    0 <= jj < j && #[trigger] self.irels@[jj].events@.contains(e) ==> seen@[e as int],
            decreases self.irels.len() - j,
        {
            let mut q: usize = 0;
            while q < self.irels[j].events.len()
                invariant
                    n == log.events.len(),
                    log.event_map.len() == log.events.len(),
                    seen.len() == n,
                    j < self.irels.len(),
                    q <= self.irels@[j as int].events.len(),
                    self.irels@ == old(self).irels@,
                    self.net@ == old(self).net@,
                    self.node_attributes@ == old(self).node_attributes@,
                    self.object_map@ == old(self).object_map@,
                    forall|jj: int, e: usize|
                        0 <= jj < self.irels.len() && #[trigger] self.irels@[jj].events@.contains(e) ==> e
                            < log.events.len(),
                    forall|e: int| 0 <= e < n && #[trigger] seen@[e] ==> exists|i: int| 0 <= i < self.event_map.len() && (#[trigger] self.event_map@[i]).1 == e,
                    forall|i: int|
                        0 <= i < self.event_map.len() ==> (#[trigger] self.event_map@[i]).1 < log.events.len()
                            && self.event_map@[i].0@ == log.event_map@[self.event_map@[i].1 as int]@
                            && exists|jj: int| 0 <= jj < self.irels.len() && (#[trigger] self.irels@[jj]).events@.contains(self.event_map@[i].1),
                    forall|jj: int, e: usize|
                        0 <= jj < j && #[trigger] self.irels@[jj].events@.contains(e) ==> seen@[e as int],
                    forall|qq: int| 0 <= qq < q ==> seen@[self.irels@[j as int].events@[qq] as int],
                decreases self.irels@[j as int].events.len() - q,
            {
                let e = self.irels[j].events[q];
                assert(self.irels@[j as int].events@.contains(e));
                let ghost seen0 = seen@;
                if !seen[e] {
                    seen.set(e, true);
                    let ghost m0 = self.event_map@;
                    self.event_map.push((log.event_map[e].clone(), e));
                    proof {
                        assert(self.event_map@[m0.len() as int].1 == e);
                        assert forall|f: int| 0 <= f < n && #[trigger] seen@[f] implies exists|i: int| 0 <= i < self.event_map.len() && (#[trigger] self.event_map@[i]).1 == f by {
                            if f != e {
                                let i = choose|i: int| 0 <= i < m0.len() && (#[trigger] m0[i]).1 == f;
                                assert(self.event_map@[i] == m0[i]);
                            }
                        }
                        assert forall|i: int|
                            0 <= i < self.event_map.len() implies (#[trigger] self.event_map@[i]).1 < log.events.len()
                                && self.event_map@[i].0@ == log.event_map@[self.event_map@[i].1 as int]@
                                && exists|jj: int| 0 <= jj < self.irels.len() && (#[trigger] self.irels@[jj]).events@.contains(self.event_map@[i].1) by {
                            if i < m0.len() {
                                assert(self.event_map@[i] == m0[i]);
                            } else {
                                assert(self.irels@[j as int].events@.contains(self.event_map@[i].1));
                            }
                        }
                    }
                }
                proof {
                    assert forall|qq: int| 0 <= qq < q + 1 implies seen@[self.irels@[j as int].events@[qq] as int] by {
                        let x = self.irels@[j as int].events@[qq];
                        assert(self.irels@[j as int].events@.contains(x));
                        assert(x < n);
                        if qq < q {
                            assert(seen0[x as int]);
                        } else {
                            assert(x == e);
                        }
                    }
                    assert forall|jj: int, f: usize|
                        0 <= jj < j && #[trigger] self.irels@[jj].events@.contains(f) implies seen@[f as int] by {
                        assert(seen0[f as int]);
                    }
                }
                q = q + 1;
            }
            proof {
                assert forall|jj: int, e: usize|
                    0 <= jj < j + 1 && #[trigger] self.irels@[jj].events@.contains(e) implies seen@[e as int] by {
                    if jj == j {
                        let qq = choose|qq: int| 0 <= qq < self.irels@[j as int].events.len() && self.irels@[j as int].events@[qq] == e;
                        assert(seen@[self.irels@[j as int].events@[qq] as int]);
                    }
                }
            }
            j = j + 1;
        }
        proof {
            assert forall|jj: int, e: usize|
                0 <= jj < self.irels.len() && #[trigger] self.irels@[jj].events@.contains(e) implies exists|i: int|
                    0 <= i < self.event_map.len() && (#[trigger] self.event_map@[i]).1 == e by {
                assert(seen@[e as int]);
            }
            lemma_same_graph(old(self), self, log, Seq::empty());
        }
    }
}

/// Builds the graph of `log` for the requested relation kinds: a node for each
/// object that takes part in an event, and an entry for each relation of a
/// requested kind that holds between two objects that share an event, with the
/// events that witness it.
pub fn generate_ocdg(log: &Ocel, relations: &Vec<Relations>) -> (g: Ocdg)
    requires
        log.wf(),
    ensures
        g.wf(),
        nodes_of(&g, log),
        relations_of(&g, log, relations@),
        events_of(&g, log),
{
    let (rel_whole, rel_inst) = split_relations(relations);
    let neighs = build_neighbour_index(log);
    let mut ocdg = init_nodes(log, &neighs);
    let mut a: usize = 0;
    while a < log.objects.len()
        invariant
            log.wf(),
            neighs.index_of(log),
            a <= log.objects.len(),
            forall|i: int| 0 <= i < rel_whole.len() ==> #[trigger] rel_whole@[i] == Relations::SPLIT,
            forall|i: int| 0 <= i < rel_inst.len() ==> #[trigger] rel_inst@[i] != Relations::SPLIT,
            forall|k: Relations| #[trigger] relations@.contains(k) <==> rel_whole@.contains(k) || rel_inst@.contains(k),
            ocdg.wf(),
            nodes_of(&ocdg, log),
            ocdg.event_map.len() == 0,
            forall|i: int|
                0 <= i < ocdg.irels.len() ==> relations@.contains((#[trigger] ocdg.irels@[i]).relation) && expected(
                    log,
                    ocdg.irels@[i].relation,
                    ocdg.irels@[i].source,
                    ocdg.irels@[i].target,
                ) && ocdg.events_at(i) == pair_witness(
                    log,
                    ocdg.irels@[i].relation,
                    ocdg.irels@[i].source,
                    ocdg.irels@[i].target,
                ),
            forall|s: usize, t: usize, k: Relations|
                relations@.contains(k) && expected(log, k, s, t) && owner(k, s, t) < a ==> #[trigger] ocdg.rel_exists(s, t, k),
        decreases log.objects.len() - a,
    {
        if neighs.nodes[a] {
            let mut props = whole_instance_edges(log, &neighs, a, &rel_whole, &rel_inst);
            let ghost all = props@;
            while props.len() > 0
                invariant
                    log.wf(),
                    forall|k: Relations| #[trigger] relations@.contains(k) <==> rel_whole@.contains(k) || rel_inst@.contains(k),
                    ocdg.wf(),
                    nodes_of(&ocdg, log),
                    ocdg.event_map.len() == 0,
                    props.len() <= all.len(),
                    forall|i: int| 0 <= i < props.len() ==> #[trigger] props@[i] == all[i],
                    forall|i: int| 0 <= i < all.len() ==> proposal_ok(log, a, #[trigger] all[i]),
                    forall|i: int|
                        0 <= i < all.len() ==> rel_whole@.contains((#[trigger] all[i]).3) || rel_inst@.contains(all[i].3),
                    forall|i: int|
                        0 <= i < ocdg.irels.len() ==> relations@.contains((#[trigger] ocdg.irels@[i]).relation) && expected(
                            log,
                            ocdg.irels@[i].relation,
                            ocdg.irels@[i].source,
                            ocdg.irels@[i].target,
                        ) && ocdg.events_at(i) == pair_witness(
                            log,
                            ocdg.irels@[i].relation,
                            ocdg.irels@[i].source,
                            ocdg.irels@[i].target,
                        ),
                    forall|s: usize, t: usize, k: Relations|
                        relations@.contains(k) && expected(log, k, s, t) && owner(k, s, t) < a ==> #[trigger] ocdg.rel_exists(s, t, k),
                    forall|s: usize, t: usize, k: Relations|
                        #[trigger] proposes(all, s, t, k) ==> proposes(props@, s, t, k) || ocdg.rel_exists(s, t, k),
                decreases props.len(),
            {
                let ghost before = props@;
                let ghost g0 = ocdg;
                match props.pop() {
                    Some(p) => {
                        let ghost last = before.len() - 1;
                        assert(p == all[last]);
                        let (s, t, eids, k) = p;
                        proof {
                            lemma_co_occur_nodes(log, s, t);
                            lemma_witness_nonempty(log, k, s, t);
                        }
                        ocdg.apply_new_edges((s, t), eids, k);
                        proof {
                            lemma_same_nodes(&g0, &ocdg, log);
                            assert(props@ =~= before.drop_last());
                            assert forall|i: int| 0 <= i < props.len() implies #[trigger] props@[i] == all[i] by {
                                assert(props@[i] == before[i]);
                            }
                            assert forall|i: int|
                                0 <= i < ocdg.irels.len() implies relations@.contains((#[trigger] ocdg.irels@[i]).relation) && expected(
                                    log,
                                    ocdg.irels@[i].relation,
                                    ocdg.irels@[i].source,
                                    ocdg.irels@[i].target,
                                ) && ocdg.events_at(i) == pair_witness(
                                    log,
                                    ocdg.irels@[i].relation,
                                    ocdg.irels@[i].source,
                                    ocdg.irels@[i].target,
                                ) by {
                                assert(ocdg.key_at(i) == ocdg.irels@[i].key());
                                if i < g0.irels.len() {
                                    assert(g0.key_at(i) == ocdg.key_at(i));
                                    assert(g0.irels@[i].key() == g0.key_at(i));
                                    if g0.key_at(i) == (s, t, k) {
                                        assert(ocdg.events_at(i) == g0.events_at(i).union(eids.event_set()));
                                        assert(ocdg.events_at(i) =~= g0.events_at(i));
                                    } else {
                                        assert(ocdg.events_at(i) == g0.events_at(i));
                                    }
                                } else {
                                    assert(ocdg.key_at(i) == (s, t, k));
                                }
                            }
                            assert forall|s2: usize, t2: usize, k2: Relations|
                                #[trigger] proposes(all, s2, t2, k2) implies proposes(props@, s2, t2, k2) || ocdg.rel_exists(s2, t2, k2) by {
                                if proposes(before, s2, t2, k2) && !g0.rel_exists(s2, t2, k2) {
                                    let i = choose|i: int| 0 <= i < before.len() && (#[trigger] before[i]).0 == s2 && before[i].1 == t2 && before[i].3 == k2;
                                    if i < last {
                                        assert(props@[i] == before[i]);
                                    }
                                }
                            }
                        }
                    },
                    None => {},
                }
            }
            proof {
                assert forall|s: usize, t: usize, k: Relations|
                    relations@.contains(k) && expected(log, k, s, t) && owner(k, s, t) < a + 1 implies #[trigger] ocdg.rel_exists(s, t, k) by {
                    if owner(k, s, t) == a {
                        assert(proposes(all, s, t, k));
                    }
                }
            }
        } else {
            proof {
                assert forall|s: usize, t: usize, k: Relations|
                    relations@.contains(k) && expected(log, k, s, t) && owner(k, s, t) < a + 1 implies #[trigger] ocdg.rel_exists(s, t, k) by {
                    if owner(k, s, t) == a {
                        lemma_co_occur_nodes(log, s, t);
                        assert(log.is_node(a));
                    }
                }
            }
        }
        a = a + 1;
    }
    proof {
        assert forall|s: usize, t: usize, k: Relations|
            relations@.contains(k) && expected(log, k, s, t) implies #[trigger] ocdg.rel_exists(s, t, k) by {
            assert(owner(k, s, t) < a);
        }
        assert forall|j: int, e: usize|
            0 <= j < ocdg.irels.len() && #[trigger] ocdg.irels@[j].events@.contains(e) implies e < log.events.len() by {
            let en = ocdg.irels@[j];
            lemma_witness_known(log, en.relation, en.source, en.target);
            assert(ocdg.events_at(j).contains(e));
        }
    }
    let ghost g0 = ocdg;
    ocdg.register_events(log);
    proof {
        lemma_same_graph(&g0, &ocdg, log, relations@);
    }
    ocdg
}

} // verus!
