use vstd::prelude::*;
use crate::eventset::{
    all_contained, contains_id, id_set, insert_id, intersection_count_sorted_vec, same_ids,
};
use crate::ocel::Ocel;

verus! {

/// The error for a list of relation kinds that breaks the rule of a transform.
#[derive(Debug, Clone, Copy, PartialEq, Eq, Structural)]
pub struct RelationError;

impl RelationError {
    /// The message of this error.
    pub fn message(&self) -> (r: String)
        ensures
            r@ == "Invalid Relation input in vector"@,
    {
        let r = String::from_str("Invalid Relation input in vector");
        proof {
            reveal_strlit("Invalid Relation input in vector");
        }
        r
    }
}

/// The fixed properties of a relation kind.
pub trait OcdgRelations {
    spec fn spec_timeconscious(&self) -> bool;

    spec fn spec_directed(&self) -> bool;

    spec fn spec_multiproof(&self) -> bool;

    /// Whether the relation encodes a temporal or causal order.
    fn is_timeconscious(&self) -> (r: bool)
        ensures
            r == self.spec_timeconscious(),
    ;

    /// Whether the relation is asymmetric.
    fn is_directed(&self) -> (r: bool)
        ensures
            r == self.spec_directed(),
    ;

    /// Whether the relation may be witnessed by several events.
    fn is_multiproof(&self) -> (r: bool)
        ensures
            r == self.spec_multiproof(),
    ;
}

/// The thirteen kinds of object-to-object relation.
#[allow(non_camel_case_types)]
#[derive(Debug, Clone, Copy, PartialEq, Eq, Hash, Structural)]
pub enum Relations {
    INTERACTS,
    COLIFE,
    COBIRTH,
    CODEATH,
    DESCENDANTS,
    INHERITANCE,
    CONSUMES,
    SPLIT,
    MERGE,
    MINION,
    PEELER,
    ENGAGES,
    ASCENDANTS,
}

impl OcdgRelations for Relations {
    open spec fn spec_timeconscious(&self) -> bool {
        matches!(self, Relations::DESCENDANTS | Relations::INHERITANCE | Relations::SPLIT | Relations::CONSUMES)
    }

    open spec fn spec_directed(&self) -> bool {
        matches!(self, Relations::DESCENDANTS | Relations::INHERITANCE | Relations::SPLIT
            | Relations::CONSUMES | Relations::MINION | Relations::ASCENDANTS)
    }

    open spec fn spec_multiproof(&self) -> bool {
        matches!(self, Relations::COLIFE | Relations::PEELER | Relations::ENGAGES)
    }

    fn is_timeconscious(&self) -> (r: bool) {
        match self {
            Relations::DESCENDANTS | Relations::INHERITANCE | Relations::SPLIT
            | Relations::CONSUMES => true,
            _ => false,
        }
    }

    fn is_directed(&self) -> (r: bool) {
        match self {
            Relations::DESCENDANTS | Relations::INHERITANCE | Relations::SPLIT
            | Relations::CONSUMES | Relations::MINION | Relations::ASCENDANTS => true,
            _ => false,
        }
    }

    fn is_multiproof(&self) -> (r: bool) {
        match self {
            Relations::COLIFE | Relations::PEELER | Relations::ENGAGES => true,
            _ => false,
        }
    }
}

/// The position of a kind in the fixed list of kinds.
pub open spec fn spec_relation_index(k: Relations) -> u8 {
    match k {
        Relations::INTERACTS => 0,
        Relations::COLIFE => 1,
        Relations::COBIRTH => 2,
        Relations::CODEATH => 3,
        Relations::DESCENDANTS => 4,
        Relations::INHERITANCE => 5,
        Relations::CONSUMES => 6,
        Relations::SPLIT => 7,
        Relations::MERGE => 8,
        Relations::MINION => 9,
        Relations::PEELER => 10,
        Relations::ENGAGES => 11,
        Relations::ASCENDANTS => 12,
    }
}

/// A kind that is evaluated once per unordered pair and yields both directions.
pub open spec fn is_symmetric(k: Relations) -> bool {
    matches!(k, Relations::INTERACTS | Relations::COLIFE | Relations::COBIRTH | Relations::CODEATH
        | Relations::PEELER | Relations::ENGAGES)
}

/// The object whose evaluation proposes the edge `s -> t` of kind `k`.
pub open spec fn owner(k: Relations, s: usize, t: usize) -> usize {
    if is_symmetric(k) {
        if s < t {
            s
        } else {
            t
        }
    } else if k == Relations::ASCENDANTS {
        t
    } else {
        s
    }
}

/// The event list that the Peeler relation walks: that of the pair's object with
/// the smaller id, unless the other one's is strictly shorter.
pub open spec fn peeler_shorter(log: &Ocel, s: usize, t: usize) -> Seq<usize> {
    let lo = if s < t {
        s
    } else {
        t
    };
    let hi = if s < t {
        t
    } else {
        s
    };
    if log.ev(lo).len() > log.ev(hi).len() {
        log.ev(hi)
    } else {
        log.ev(lo)
    }
}

/// Event `e` holds both objects and at least one more.
pub open spec fn peeler_blocked(log: &Ocel, s: usize, t: usize, e: usize) -> bool {
    log.omap(e).len() > 2 && log.omap(e).contains(s) && log.omap(e).contains(t)
}

/// `c` qualifies for a Split of `s`: a neighbour of the same type born in the
/// event in which `s` ends.
pub open spec fn split_candidate(log: &Ocel, s: usize, c: usize) -> bool {
    &&& log.co_occur(s, c)
    &&& log.otype(c) == log.otype(s)
    &&& log.ev(c)[0] == log.ev(s).last()
}

/// The condition under which the edge `s -> t` of kind `k` belongs to the graph,
/// for two objects that share an event.
pub open spec fn pair_holds(log: &Ocel, k: Relations, s: usize, t: usize) -> bool {
    let es = log.ev(s);
    let et = log.ev(t);
    let same_type = log.otype(s) == log.otype(t);
    match k {
        Relations::INTERACTS => true,
        Relations::COLIFE => es == et,
        Relations::COBIRTH => es[0] == et[0],
        Relations::CODEATH => es.last() == et.last(),
        Relations::DESCENDANTS => es[0] < et[0] && es.contains(et[0]),
        Relations::ASCENDANTS => et[0] < es[0] && et.contains(es[0]),
        Relations::INHERITANCE => same_type && es.last() == et[0],
        Relations::CONSUMES => !same_type && es.last() == et[0],
        Relations::MERGE => same_type && es.last() != et.last(),
        Relations::MINION => es.len() > et.len() && (forall|i: int|
            0 <= i < et.len() ==> es.contains(#[trigger] et[i])),
        Relations::PEELER => forall|i: int|
            0 <= i < peeler_shorter(log, s, t).len() ==> !peeler_blocked(
                log,
                s,
                t,
                #[trigger] peeler_shorter(log, s, t)[i],
            ),
        Relations::ENGAGES => !et.contains(es[0]) && !et.contains(es.last()) && !es.contains(et[0])
            && !es.contains(et.last()),
        Relations::SPLIT => split_candidate(log, s, t) && exists|c: usize|
            c != t && #[trigger] split_candidate(log, s, c),
    }
}

/// The events that witness the edge `s -> t` of kind `k`.
pub open spec fn pair_witness(log: &Ocel, k: Relations, s: usize, t: usize) -> Set<usize> {
    let es = log.ev(s);
    let et = log.ev(t);
    match k {
        Relations::INTERACTS | Relations::ENGAGES => es.to_set().intersect(et.to_set()),
        Relations::COLIFE => es.to_set(),
        Relations::COBIRTH => set![es[0]],
        Relations::CODEATH => set![es.last()],
        Relations::DESCENDANTS => set![et[0]],
        Relations::ASCENDANTS => set![es[0]],
        Relations::INHERITANCE | Relations::CONSUMES | Relations::MERGE | Relations::SPLIT => set![
            es.last(),
        ],
        Relations::MINION => et.to_set(),
        Relations::PEELER => peeler_shorter(log, s, t).to_set(),
    }
}

/// The edge `s -> t` of kind `k` belongs to the graph of `log`, whenever `k` is requested.
pub open spec fn expected(log: &Ocel, k: Relations, s: usize, t: usize) -> bool {
    log.co_occur(s, t) && pair_holds(log, k, s, t)
}

/// The witness of a proposed edge: one event, or a set of events.
#[derive(Debug, Clone)]
pub enum EventAdd {
    SINGLE(usize),
    MULTI(Vec<usize>),
}

impl EventAdd {
    /// The events held.
    pub open spec fn event_set(&self) -> Set<usize> {
        match self {
            EventAdd::SINGLE(e) => set![*e],
            EventAdd::MULTI(v) => v@.to_set(),
        }
    }

    /// The events in a list without repetition.
    pub fn to_vec(&self) -> (r: Vec<usize>)
        ensures
            r@.no_duplicates(),
            r@.to_set() == self.event_set(),
    {
        match self {
            EventAdd::SINGLE(e) => {
                let mut r: Vec<usize> = Vec::new();
                insert_id(&mut r, *e);
                assert(r@.to_set() =~= set![*e]);
                r
            },
            EventAdd::MULTI(v) => id_set(v),
        }
    }
}

/// A proposed edge: source, target, witness and kind.
pub type Proposal = (usize, usize, EventAdd, Relations);

/// The kinds whose evaluation hands its witness as a single event.
pub open spec fn single_witness(k: Relations) -> bool {
    matches!(k, Relations::COBIRTH | Relations::CODEATH | Relations::DESCENDANTS
        | Relations::ASCENDANTS | Relations::INHERITANCE | Relations::CONSUMES | Relations::MERGE)
}

/// `p` is a correct proposal of the evaluation of object `a`.
pub open spec fn proposal_ok(log: &Ocel, a: usize, p: Proposal) -> bool {
    &&& owner(p.3, p.0, p.1) == a
    &&& expected(log, p.3, p.0, p.1)
    &&& p.2.event_set() == pair_witness(log, p.3, p.0, p.1)
}

/// `r` holds a proposal for the edge `s -> t` of kind `k`.
pub open spec fn proposes(r: Seq<Proposal>, s: usize, t: usize, k: Relations) -> bool {
    exists|i: int| 0 <= i < r.len() && (#[trigger] r[i]).0 == s && r[i].1 == t && r[i].3 == k
}

/// Checks that no kind in the list is directed.
pub fn check_non_directed(relations: &Vec<Relations>) -> (r: Result<(), RelationError>)
    ensures
        r is Ok <==> forall|i: int| 0 <= i < relations.len() ==> !(#[trigger] relations@[i]).spec_directed(),
{
    let mut i: usize = 0;
    while i < relations.len()
        invariant
            i <= relations.len(),
            forall|j: int| 0 <= j < i ==> !(#[trigger] relations@[j]).spec_directed(),
        decreases relations.len() - i,
    {
        if relations[i].is_directed() {
            return Err(RelationError);
        }
        i = i + 1;
    }
    Ok(())
}

/// Checks that every kind in the list is time-conscious.
pub fn check_time_conscious(relations: &Vec<Relations>) -> (r: Result<(), RelationError>)
    ensures
        r is Ok <==> forall|i: int| 0 <= i < relations.len() ==> (#[trigger] relations@[i]).spec_timeconscious(),
{
    let mut i: usize = 0;
    while i < relations.len()
        invariant
            i <= relations.len(),
            forall|j: int| 0 <= j < i ==> (#[trigger] relations@[j]).spec_timeconscious(),
        decreases relations.len() - i,
    {
        if !relations[i].is_timeconscious() {
            return Err(RelationError);
        }
        i = i + 1;
    }
    Ok(())
}

impl Relations {
    /// 1 for the kind evaluated on an object's whole neighbourhood, 2 for the pairwise kinds.
    pub fn relation_type(&self) -> (r: u8)
        ensures
            r == (if *self == Relations::SPLIT {
                1u8
            } else {
                2u8
            }),
    {
        match self {
            Relations::SPLIT => 1,
            _ => 2,
        }
    }

    /// The position of this kind in the fixed list of kinds.
    pub fn relation_index(&self) -> (r: u8)
        ensures
            r == spec_relation_index(*self),
    {
        match self {
            Relations::INTERACTS => 0,
            Relations::COLIFE => 1,
            Relations::COBIRTH => 2,
            Relations::CODEATH => 3,
            Relations::DESCENDANTS => 4,
            Relations::INHERITANCE => 5,
            Relations::CONSUMES => 6,
            Relations::SPLIT => 7,
            Relations::MERGE => 8,
            Relations::MINION => 9,
            Relations::PEELER => 10,
            Relations::ENGAGES => 11,
            Relations::ASCENDANTS => 12,
        }
    }
}

impl Relations {
    /// Evaluates this kind on the object `oid1` and its neighbour `oid2`: the
    /// edges that the evaluation of `oid1` owns between the two. Split is not
    /// evaluated on pairs and yields nothing here.
    pub fn execute(&self, log: &Ocel, oid1: usize, oid2: usize) -> (r: Vec<Proposal>)
        requires
            log.wf(),
            log.co_occur(oid1, oid2),
        ensures
            forall|i: int| 0 <= i < r.len() ==> proposal_ok(log, oid1, #[trigger] r@[i]),
            forall|i: int| 0 <= i < r.len() ==> (#[trigger] r@[i]).3 == *self,
            *self != Relations::SPLIT && expected(log, *self, oid1, oid2) && owner(*self, oid1, oid2)
                == oid1 ==> proposes(r@, oid1, oid2, *self),
            *self != Relations::SPLIT && expected(log, *self, oid2, oid1) && owner(*self, oid2, oid1)
                == oid1 ==> proposes(r@, oid2, oid1, *self),
            *self == Relations::SPLIT ==> r.len() == 0,
            forall|i: int|
                0 <= i < r.len() ==> ((#[trigger] r@[i]).0 == oid1 && r@[i].1 == oid2) || (r@[i].0
                    == oid2 && r@[i].1 == oid1),
            forall|i: int, j: int|
                0 <= i < j < r.len() ==> ((#[trigger] r@[i]).0, r@[i].1) != ((#[trigger] r@[j]).0, r@[j].1),
            forall|i: int| 0 <= i < r.len() ==> ((#[trigger] r@[i]).2 is SINGLE <==> single_witness(*self)),
            forall|i: int|
                0 <= i < r.len() && (#[trigger] r@[i]).2 is MULTI ==> r@[i].2->MULTI_0@.no_duplicates(),
    {
        let mut to_add: Vec<Proposal> = Vec::new();
        let src_oe = &log.objects[oid1].events;
        let tar_oe = &log.objects[oid2].events;
        let src_type = &log.objects[oid1].obj_type;
        let tar_type = &log.objects[oid2].obj_type;
        let ghost es = log.ev(oid1);
        let ghost et = log.ev(oid2);
        proof {
            assert(log.co_occur(oid2, oid1));
            assert(es.len() > 0 && et.len() > 0);
        }
        let src_first = src_oe[0];
        let src_last = src_oe[src_oe.len() - 1];
        let tar_first = tar_oe[0];
        let tar_last = tar_oe[tar_oe.len() - 1];
        match self {
            Relations::INTERACTS => {
                if oid1 < oid2 {
                    let e_set = intersection_count_sorted_vec(src_oe, tar_oe);
                    let e_set2 = e_set.clone();
                    assert(e_set2@ == e_set@);
                    to_add.push((oid1, oid2, EventAdd::MULTI(e_set), Relations::INTERACTS));
                    to_add.push((oid2, oid1, EventAdd::MULTI(e_set2), Relations::INTERACTS));
                    assert(es.to_set().intersect(et.to_set()) =~= et.to_set().intersect(es.to_set()));
                    assert(to_add@[0].0 == oid1);
                    assert(to_add@[1].0 == oid2);
                }
            },
            Relations::DESCENDANTS => {
                if src_first < tar_first && contains_id(src_oe, tar_first) {
                    to_add.push((oid1, oid2, EventAdd::SINGLE(tar_first), Relations::DESCENDANTS));
                    assert(to_add@[0].0 == oid1);
                }
            },
            Relations::ASCENDANTS => {
                if src_first < tar_first && contains_id(src_oe, tar_first) {
                    to_add.push((oid2, oid1, EventAdd::SINGLE(tar_first), Relations::ASCENDANTS));
                    assert(to_add@[0].0 == oid2);
                }
            },
            Relations::COLIFE => {
                if oid1 < oid2 && same_ids(src_oe, tar_oe) {
                    let e_set = id_set(src_oe);
                    let e_set2 = e_set.clone();
                    assert(e_set2@ == e_set@);
                    to_add.push((oid1, oid2, EventAdd::MULTI(e_set), Relations::COLIFE));
                    to_add.push((oid2, oid1, EventAdd::MULTI(e_set2), Relations::COLIFE));
                    assert(to_add@[0].0 == oid1);
                    assert(to_add@[1].0 == oid2);
                }
            },
            Relations::COBIRTH => {
                if oid1 < oid2 && src_first == tar_first {
                    to_add.push((oid1, oid2, EventAdd::SINGLE(src_first), Relations::COBIRTH));
                    to_add.push((oid2, oid1, EventAdd::SINGLE(src_first), Relations::COBIRTH));
                    assert(to_add@[0].0 == oid1);
                    assert(to_add@[1].0 == oid2);
                }
            },
            Relations::CODEATH => {
                if oid1 < oid2 && src_last == tar_last {
                    to_add.push((oid1, oid2, EventAdd::SINGLE(src_last), Relations::CODEATH));
                    to_add.push((oid2, oid1, EventAdd::SINGLE(src_last), Relations::CODEATH));
                    assert(to_add@[0].0 == oid1);
                    assert(to_add@[1].0 == oid2);
                }
            },
            Relations::INHERITANCE => {
                if *src_type == *tar_type && src_last == tar_first {
                    to_add.push((oid1, oid2, EventAdd::SINGLE(src_last), Relations::INHERITANCE));
                    assert(to_add@[0].0 == oid1);
                }
            },
            Relations::CONSUMES => {
                if *src_type != *tar_type && src_last == tar_first {
                    to_add.push((oid1, oid2, EventAdd::SINGLE(src_last), Relations::CONSUMES));
                    assert(to_add@[0].0 == oid1);
                }
            },
            Relations::MERGE => {
                if *src_type == *tar_type && src_last != tar_last {
                    to_add.push((oid1, oid2, EventAdd::SINGLE(src_last), Relations::MERGE));
                    assert(to_add@[0].0 == oid1);
                }
            },
            Relations::MINION => {
                if src_oe.len() > tar_oe.len() && all_contained(tar_oe, src_oe) {
                    let e_set = id_set(tar_oe);
                    to_add.push((oid1, oid2, EventAdd::MULTI(e_set), Relations::MINION));
                    assert(to_add@[0].0 == oid1);
                }
            },
            Relations::PEELER => {
                if oid1 < oid2 {
                    let shorter_oe = if src_oe.len() > tar_oe.len() {
                        tar_oe
                    } else {
                        src_oe
                    };
                    assert(shorter_oe@ == peeler_shorter(log, oid1, oid2));
                    let mut shared_events: Vec<usize> = Vec::new();
                    let mut failed: bool = false;
                    let mut i: usize = 0;
                    while i < shorter_oe.len()
                        invariant
                            log.wf(),
                            oid1 < log.objects.len(),
                            oid2 < log.objects.len(),
                            shorter_oe@ == peeler_shorter(log, oid1, oid2),
                            shorter_oe@ == es || shorter_oe@ == et,
                            i <= shorter_oe.len(),
                            shared_events@.no_duplicates(),
                            shared_events@.to_set() == shorter_oe@.subrange(0, i as int).to_set(),
                            failed ==> exists|j: int|
                                0 <= j < shorter_oe.len() && peeler_blocked(
                                    log,
                                    oid1,
                                    oid2,
                                    #[trigger] shorter_oe@[j],
                                ),
                            !failed ==> forall|j: int|
                                0 <= j < i ==> !peeler_blocked(
                                    log,
                                    oid1,
                                    oid2,
                                    #[trigger] shorter_oe@[j],
                                ),
                        ensures
                            !failed ==> i == shorter_oe.len(),
                        decreases shorter_oe.len() - i,
                    {
                        let ev = shorter_oe[i];
                        assert(ev < log.events.len());
                        let omap = &log.events[ev].omap;
                        if omap.len() > 2 && contains_id(omap, oid1) && contains_id(omap, oid2) {
                            failed = true;
                            assert(peeler_blocked(log, oid1, oid2, shorter_oe@[i as int]));
                            break;
                        }
                        insert_id(&mut shared_events, ev);
                        proof {
                            shorter_oe@.subrange(0, i as int).lemma_push_to_set_commute(ev);
                            assert(shorter_oe@.subrange(0, i + 1) =~= shorter_oe@.subrange(
                                0,
                                i as int,
                            ).push(ev));
                        }
                        i = i + 1;
                    }
                    if !failed {
                        assert(shorter_oe@.subrange(0, shorter_oe.len() as int) =~= shorter_oe@);
                        let e_set2 = shared_events.clone();
                        assert(e_set2@ == shared_events@);
                        to_add.push((oid1, oid2, EventAdd::MULTI(shared_events), Relations::PEELER));
                        to_add.push((oid2, oid1, EventAdd::MULTI(e_set2), Relations::PEELER));
                        assert(peeler_shorter(log, oid1, oid2) == peeler_shorter(log, oid2, oid1));
                        assert forall|i: int| 0 <= i < peeler_shorter(log, oid2, oid1).len() implies !peeler_blocked(
                            log,
                            oid2,
                            oid1,
                            #[trigger] peeler_shorter(log, oid2, oid1)[i],
                        ) by {
                            assert(!peeler_blocked(log, oid1, oid2, shorter_oe@[i]));
                        }
                        assert(to_add@[0].0 == oid1);
                        assert(to_add@[1].0 == oid2);
                    } else {
                        assert(peeler_shorter(log, oid1, oid2) == peeler_shorter(log, oid2, oid1));
                        let ghost j = choose|j: int|
                            0 <= j < shorter_oe.len() && peeler_blocked(
                                log,
                                oid1,
                                oid2,
                                #[trigger] shorter_oe@[j],
                            );
                        assert(peeler_blocked(log, oid2, oid1, peeler_shorter(log, oid2, oid1)[j]));
                    }
                }
            },
            Relations::ENGAGES => {
                if oid1 < oid2 {
                    if !contains_id(tar_oe, src_first) && !contains_id(tar_oe, src_last)
                        && !contains_id(src_oe, tar_first) && !contains_id(src_oe, tar_last) {
                        let shared = intersection_count_sorted_vec(src_oe, tar_oe);
                        let shared2 = shared.clone();
                        assert(shared2@ == shared@);
                        to_add.push((oid1, oid2, EventAdd::MULTI(shared), Relations::ENGAGES));
                        to_add.push((oid2, oid1, EventAdd::MULTI(shared2), Relations::ENGAGES));
                        assert(es.to_set().intersect(et.to_set()) =~= et.to_set().intersect(es.to_set()));
                        assert(to_add@[0].0 == oid1);
                        assert(to_add@[1].0 == oid2);
                    }
                }
            },
            Relations::SPLIT => {},
        }
        to_add
    }
}

} // verus!
