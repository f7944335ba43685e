use vstd::prelude::*;
use crate::decomposition::{ambiguous, decomposition_of, removed};
use crate::ocdg::{relations_of, Ocdg};
use crate::ocel::Ocel;
use crate::relations::{
    expected, is_symmetric, pair_holds, pair_witness, peeler_blocked, peeler_shorter,
    split_candidate, Relations,
};

verus! {

proof fn lemma_entry_relation(g: &Ocdg, i: int)
    requires
        0 <= i < g.irels.len(),
    ensures
        g.has_relation(g.irels@[i].source, g.irels@[i].target, g.irels@[i].relation, g.events_at(i)),
{
    assert(g.key_at(i) == (g.irels@[i].source, g.irels@[i].target, g.irels@[i].relation));
}

/// Two graphs built from one log, for requests that name the same kinds, hold
/// the same relation index: the same kinds between the same objects, with the
/// same witnesses.
pub proof fn lemma_build_deterministic(
    log: &Ocel,
    r1: Seq<Relations>,
    r2: Seq<Relations>,
    g1: &Ocdg,
    g2: &Ocdg,
)
    requires
        log.wf(),
        forall|k: Relations| r1.contains(k) <==> r2.contains(k),
        g1.wf(),
        g2.wf(),
        relations_of(g1, log, r1),
        relations_of(g2, log, r2),
    ensures
        forall|s: usize, t: usize, k: Relations, w: Set<usize>|
            #[trigger] g1.has_relation(s, t, k, w) <==> g2.has_relation(s, t, k, w),
{
    assert forall|s: usize, t: usize, k: Relations, w: Set<usize>|
        #[trigger] g1.has_relation(s, t, k, w) implies g2.has_relation(s, t, k, w) by {
        let i = choose|i: int| 0 <= i < g1.irels.len() && #[trigger] g1.key_at(i) == (s, t, k) && g1.events_at(i) == w;
        assert(g1.irels@[i].relation == k);
        assert(r2.contains(k));
        assert(g2.rel_exists(s, t, k));
        let j = choose|j: int| 0 <= j < g2.irels.len() && #[trigger] g2.key_at(j) == (s, t, k);
        assert(g2.irels@[j].relation == k);
    }
    assert forall|s: usize, t: usize, k: Relations, w: Set<usize>|
        #[trigger] g2.has_relation(s, t, k, w) implies g1.has_relation(s, t, k, w) by {
        let i = choose|i: int| 0 <= i < g2.irels.len() && #[trigger] g2.key_at(i) == (s, t, k) && g2.events_at(i) == w;
        assert(g2.irels@[i].relation == k);
        assert(r1.contains(k));
        assert(g1.rel_exists(s, t, k));
        let j = choose|j: int| 0 <= j < g1.irels.len() && #[trigger] g1.key_at(j) == (s, t, k);
        assert(g1.irels@[j].relation == k);
    }
}

/// In a built graph, every relation of a kind that is not directed
/// (Interacts, Colife, Cobirth, Codeath, Peeler, Engages) from `s` to `t` is
/// matched by the same relation from `t` to `s`, with the same witnesses.
pub proof fn lemma_symmetric_relations(log: &Ocel, relations: Seq<Relations>, g: &Ocdg)
    requires
        log.wf(),
        g.wf(),
        relations_of(g, log, relations),
    ensures
        forall|s: usize, t: usize, k: Relations, w: Set<usize>|
            is_symmetric(k) && #[trigger] g.has_relation(s, t, k, w) ==> g.has_relation(t, s, k, w),
{
    assert forall|s: usize, t: usize, k: Relations, w: Set<usize>|
        is_symmetric(k) && #[trigger] g.has_relation(s, t, k, w) implies g.has_relation(t, s, k, w) by {
        let i = choose|i: int| 0 <= i < g.irels.len() && #[trigger] g.key_at(i) == (s, t, k) && g.events_at(i) == w;
        assert(g.irels@[i].relation == k);
        assert(expected(log, k, s, t));
        let e = choose|e: usize| #[trigger] log.in_event(e, s) && log.in_event(e, t);
        assert(log.in_event(e, t) && log.in_event(e, s));
        assert(log.co_occur(t, s));
        let es = log.ev(s);
        let et = log.ev(t);
        assert(peeler_shorter(log, s, t) == peeler_shorter(log, t, s));
        if k == Relations::PEELER {
            assert forall|q: int| 0 <= q < peeler_shorter(log, t, s).len() implies !peeler_blocked(
                log,
                t,
                s,
                #[trigger] peeler_shorter(log, t, s)[q],
            ) by {
                assert(!peeler_blocked(log, s, t, peeler_shorter(log, s, t)[q]));
            }
        }
        assert(pair_holds(log, k, t, s));
        assert(es.to_set().intersect(et.to_set()) =~= et.to_set().intersect(es.to_set()));
        assert(pair_witness(log, k, t, s) == pair_witness(log, k, s, t));
        assert(g.rel_exists(t, s, k));
        let j = choose|j: int| 0 <= j < g.irels.len() && #[trigger] g.key_at(j) == (t, s, k);
        assert(g.irels@[j].relation == k);
        assert(g.events_at(j) == w);
    }
}

/// In a built graph, a Descendants relation from `a` to `b` means that `a`
/// begins strictly before `b`, and that `b`'s first event is among `a`'s events.
pub proof fn lemma_descendants_order(log: &Ocel, relations: Seq<Relations>, g: &Ocdg)
    requires
        log.wf(),
        g.wf(),
        relations_of(g, log, relations),
    ensures
        forall|a: usize, b: usize, w: Set<usize>|
            #[trigger] g.has_relation(a, b, Relations::DESCENDANTS, w) ==> log.ev(a)[0] < log.ev(b)[0]
                && log.ev(a).contains(log.ev(b)[0]),
{
    assert forall|a: usize, b: usize, w: Set<usize>|
        #[trigger] g.has_relation(a, b, Relations::DESCENDANTS, w) implies log.ev(a)[0] < log.ev(b)[0]
            && log.ev(a).contains(log.ev(b)[0]) by {
        let i = choose|i: int| 0 <= i < g.irels.len() && #[trigger] g.key_at(i) == (a, b, Relations::DESCENDANTS) && g.events_at(i) == w;
        assert(g.irels@[i].relation == Relations::DESCENDANTS);
    }
}

/// In a built graph, a Minion relation from `a` to `b` is witnessed by events of
/// `a` only, and `a` has strictly more events than `b`.
pub proof fn lemma_minion_containment(log: &Ocel, relations: Seq<Relations>, g: &Ocdg)
    requires
        log.wf(),
        g.wf(),
        relations_of(g, log, relations),
    ensures
        forall|a: usize, b: usize, w: Set<usize>|
            #[trigger] g.has_relation(a, b, Relations::MINION, w) ==> w.subset_of(log.ev(a).to_set())
                && log.ev(a).len() > log.ev(b).len(),
{
    assert forall|a: usize, b: usize, w: Set<usize>|
        #[trigger] g.has_relation(a, b, Relations::MINION, w) implies w.subset_of(log.ev(a).to_set())
            && log.ev(a).len() > log.ev(b).len() by {
        let i = choose|i: int| 0 <= i < g.irels.len() && #[trigger] g.key_at(i) == (a, b, Relations::MINION) && g.events_at(i) == w;
        assert(g.irels@[i].relation == Relations::MINION);
        assert(w == log.ev(b).to_set());
        assert forall|e: usize| w.contains(e) implies log.ev(a).to_set().contains(e) by {
            let q = choose|q: int| 0 <= q < log.ev(b).len() && log.ev(b)[q] == e;
            assert(log.ev(a).contains(log.ev(b)[q]));
        }
    }
}

/// In a built graph, a Split relation from `s` to `t` exists only when `t` and at
/// least one other neighbour of `s` have `s`'s type and begin with the event in
/// which `s` ends; when Split is requested and two such neighbours exist, the
/// relation is there.
pub proof fn lemma_split_threshold(log: &Ocel, relations: Seq<Relations>, g: &Ocdg)
    requires
        log.wf(),
        g.wf(),
        relations_of(g, log, relations),
    ensures
        forall|s: usize, t: usize, w: Set<usize>|
            #[trigger] g.has_relation(s, t, Relations::SPLIT, w) ==> split_candidate(log, s, t)
                && exists|c: usize| c != t && #[trigger] split_candidate(log, s, c),
        forall|s: usize, t: usize, c: usize|
            relations.contains(Relations::SPLIT) && #[trigger] split_candidate(log, s, t)
                && #[trigger] split_candidate(log, s, c) && c != t ==> g.rel_exists(
                s,
                t,
                Relations::SPLIT,
            ),
{
    assert forall|s: usize, t: usize, w: Set<usize>|
        #[trigger] g.has_relation(s, t, Relations::SPLIT, w) implies split_candidate(log, s, t)
            && exists|c: usize| c != t && #[trigger] split_candidate(log, s, c) by {
        let i = choose|i: int| 0 <= i < g.irels.len() && #[trigger] g.key_at(i) == (s, t, Relations::SPLIT) && g.events_at(i) == w;
        assert(g.irels@[i].relation == Relations::SPLIT);
    }
    assert forall|s: usize, t: usize, c: usize|
        relations.contains(Relations::SPLIT) && #[trigger] split_candidate(log, s, t)
            && #[trigger] split_candidate(log, s, c) && c != t implies g.rel_exists(s, t, Relations::SPLIT) by {
        assert(expected(log, Relations::SPLIT, s, t));
    }
}

/// Decomposing a decomposed graph changes nothing: no entry is removed the
/// second time, and the relation index, the nodes and their cuts stay as they are.
pub proof fn lemma_decomposition_idempotent(g1: &Ocdg, g2: &Ocdg, g3: &Ocdg)
    requires
        g1.wf(),
        decomposition_of(g1, g2),
        decomposition_of(g2, g3),
    ensures
        forall|s: usize, t: usize| !#[trigger] removed(g2, s, t),
        forall|s: usize, t: usize, k: Relations, w: Set<usize>|
            #[trigger] g3.has_relation(s, t, k, w) <==> g2.has_relation(s, t, k, w),
        forall|o: usize| #[trigger] g3.is_node(o) <==> g2.is_node(o),
        forall|o: usize|
            #[trigger] g2.is_node(o) ==> g3.node_type_of(o) == g2.node_type_of(o) && g3.src_cut_of(o)
                == g2.src_cut_of(o) && g3.tar_cut_of(o) == g2.tar_cut_of(o),
{
    assert forall|s: usize, t: usize| !#[trigger] removed(g2, s, t) by {
        if removed(g2, s, t) {
            let t2 = choose|t2: usize|
                t2 != t && #[trigger] g2.rel_exists(s, t2, Relations::DESCENDANTS) && g2.node_type_of(t2)
                    == g2.node_type_of(t);
            let i = choose|i: int| 0 <= i < g2.irels.len() && #[trigger] g2.key_at(i) == (s, t, Relations::DESCENDANTS);
            let j = choose|j: int| 0 <= j < g2.irels.len() && #[trigger] g2.key_at(j) == (s, t2, Relations::DESCENDANTS);
            lemma_entry_relation(g2, i);
            lemma_entry_relation(g2, j);
            assert(g1.has_relation(s, t, Relations::DESCENDANTS, g2.events_at(i)));
            assert(g1.has_relation(s, t2, Relations::DESCENDANTS, g2.events_at(j)));
            assert(g2.is_node(t) && g2.is_node(t2));
            assert(g1.is_node(t) && g1.is_node(t2));
            let j1 = choose|j1: int| 0 <= j1 < g1.irels.len() && #[trigger] g1.key_at(j1) == (s, t2, Relations::DESCENDANTS) && g1.events_at(j1) == g2.events_at(j);
            assert(g1.rel_exists(s, t2, Relations::DESCENDANTS));
            assert(ambiguous(g1, s, t));
        }
    }
    assert forall|s: usize, t: usize, k: Relations, w: Set<usize>|
        #[trigger] g3.has_relation(s, t, k, w) <==> g2.has_relation(s, t, k, w) by {
        if g2.has_relation(s, t, k, w) && k == Relations::DESCENDANTS {
            let i = choose|i: int| 0 <= i < g2.irels.len() && #[trigger] g2.key_at(i) == (s, t, k) && g2.events_at(i) == w;
            assert(g2.rel_exists(s, t, k));
            assert(!removed(g2, s, t));
        }
    }
    assert forall|o: usize|
        #[trigger] g2.is_node(o) implies g3.node_type_of(o) == g2.node_type_of(o) && g3.src_cut_of(o)
            == g2.src_cut_of(o) && g3.tar_cut_of(o) == g2.tar_cut_of(o) by {
        assert(Set::new(|t: usize| removed(g2, o, t)) =~= Set::<usize>::empty());
        assert(Set::new(|s: usize| removed(g2, s, o)) =~= Set::<usize>::empty());
        assert(g2.src_cut_of(o).union(Set::<usize>::empty()) =~= g2.src_cut_of(o));
        assert(g2.tar_cut_of(o).union(Set::<usize>::empty()) =~= g2.tar_cut_of(o));
    }
}

/// Every relation of a graph is witnessed by at least one event.
pub proof fn lemma_witnesses_not_empty(g: &Ocdg)
    requires
        g.wf(),
    ensures
        forall|s: usize, t: usize, k: Relations, w: Set<usize>|
            #[trigger] g.has_relation(s, t, k, w) ==> w.len() > 0,
{
    assert forall|s: usize, t: usize, k: Relations, w: Set<usize>|
        #[trigger] g.has_relation(s, t, k, w) implies w.len() > 0 by {
        let i = choose|i: int| 0 <= i < g.irels.len() && #[trigger] g.key_at(i) == (s, t, k) && g.events_at(i) == w;
        let x = g.irels@[i].events@[0];
        assert(g.irels@[i].events@.to_set().contains(x));
        vstd::seq_lib::seq_to_set_is_finite(g.irels@[i].events@);
        if w.len() == 0 {
            w.lemma_len0_is_empty();
        }
    }
}

} // verus!
