use vstd::prelude::*;
use crate::eventset::insert_id;
use crate::ocel::Ocel;

verus! {

/// The node registry and candidate neighbours of a log: which objects become
/// nodes, and for each object the other objects that share an event with it.
pub struct NeighbourIndex {
    pub nodes: Vec<bool>,
    pub neighbours: Vec<Vec<usize>>,
}

impl NeighbourIndex {
    /// This index is the one of `log`.
    pub open spec fn index_of(&self, log: &Ocel) -> bool {
        &&& self.nodes.len() == log.objects.len()
        &&& self.neighbours.len() == log.objects.len()
        &&& forall|o: usize| o < log.objects.len() ==> (self.nodes@[o as int] <==> #[trigger] log.is_node(o))
        &&& forall|a: usize| a < log.objects.len() ==> (#[trigger] self.neighbours@[a as int]@).no_duplicates()
        &&& forall|a: usize, b: usize|
            a < log.objects.len() ==> (self.neighbours@[a as int]@.contains(b) <==> #[trigger] log.co_occur(a, b))
    }
}

/// Whether object `o` is valid, that is known and with at least one event.
pub fn is_valid_object(log: &Ocel, o: usize) -> (r: bool)
    ensures
        r == log.valid_object(o),
{
    o < log.objects.len() && log.objects[o].events.len() > 0
}

/// Object `o` takes part in one of the events before `e`.
pub open spec fn seen_before(log: &Ocel, e: usize, o: usize) -> bool {
    exists|f: usize| f < e && #[trigger] log.in_event(f, o)
}

/// Objects `a` and `b` share one of the events before `e`.
pub open spec fn met_before(log: &Ocel, e: usize, a: usize, b: usize) -> bool {
    exists|f: usize| f < e && #[trigger] log.in_event(f, a) && log.in_event(f, b)
}

/// `o` is among the first `i` elements of `s`.
pub open spec fn in_prefix(s: Seq<usize>, i: int, o: usize) -> bool {
    exists|p: int| 0 <= p < i && #[trigger] s[p] == o
}

proof fn lemma_prefix_step(s: Seq<usize>, i: int)
    requires
        0 <= i < s.len(),
    ensures
        forall|o: usize| #[trigger] in_prefix(s, i + 1, o) <==> in_prefix(s, i, o) || s[i] == o,
{
    assert forall|o: usize| #[trigger] in_prefix(s, i + 1, o) <==> in_prefix(s, i, o) || s[i] == o by {
        if in_prefix(s, i + 1, o) {
            let p = choose|p: int| 0 <= p < i + 1 && #[trigger] s[p] == o;
            if p < i {
                assert(in_prefix(s, i, o));
            }
        }
        if s[i] == o {
            assert(s[i] == o);
        }
    }
}

proof fn lemma_prefix_full(s: Seq<usize>)
    ensures
        forall|o: usize| #[trigger] in_prefix(s, s.len() as int, o) <==> s.contains(o),
{
    assert forall|o: usize| #[trigger] in_prefix(s, s.len() as int, o) <==> s.contains(o) by {
        if s.contains(o) {
            let p = choose|p: int| 0 <= p < s.len() && s[p] == o;
            assert(s[p] == o);
        }
    }
}

proof fn lemma_before_step(log: &Ocel, e: usize)
    requires
        e < log.events.len(),
    ensures
        forall|o: usize| #[trigger] seen_before(log, (e + 1) as usize, o) <==> seen_before(log, e, o) || log.omap(e).contains(o),
        forall|a: usize, b: usize| #[trigger] met_before(log, (e + 1) as usize, a, b) <==> met_before(log, e, a, b) || (log.omap(e).contains(a) && log.omap(e).contains(b)),
{
    assert forall|o: usize| #[trigger] seen_before(log, (e + 1) as usize, o) <==> seen_before(log, e, o) || log.omap(e).contains(o) by {
        if seen_before(log, (e + 1) as usize, o) {
            let f = choose|f: usize| f < e + 1 && #[trigger] log.in_event(f, o);
            if f < e {
                assert(seen_before(log, e, o));
            }
        }
        if log.omap(e).contains(o) {
            assert(log.in_event(e, o));
        }
    }
    assert forall|a: usize, b: usize| #[trigger] met_before(log, (e + 1) as usize, a, b) <==> met_before(log, e, a, b) || (log.omap(e).contains(a) && log.omap(e).contains(b)) by {
        if met_before(log, (e + 1) as usize, a, b) {
            let f = choose|f: usize| f < e + 1 && #[trigger] log.in_event(f, a) && log.in_event(f, b);
            if f < e {
                assert(met_before(log, e, a, b));
            }
        }
        if log.omap(e).contains(a) && log.omap(e).contains(b) {
            assert(log.in_event(e, a));
        }
    }
}

/// Builds the node registry and the candidate neighbours in one pass over the
/// events. References to unknown objects, or to objects without events, are skipped.
pub fn build_neighbour_index(log: &Ocel) -> (r: NeighbourIndex)
    requires
        log.wf(),
    ensures
        r.index_of(log),
{
    let n = log.objects.len();
    let mut nodes: Vec<bool> = Vec::new();
    let mut neighbours: Vec<Vec<usize>> = Vec::new();
    let mut k: usize = 0;
    while k < n
        invariant
            k <= n,
            n == log.objects.len(),
            nodes.len() == k,
            neighbours.len() == k,
            forall|o: int| 0 <= o < k ==> !nodes@[o],
            forall|o: int| 0 <= o < k ==> neighbours@[o]@.len() == 0,
        decreases n - k,
    {
        nodes.push(false);
        neighbours.push(Vec::new());
        k = k + 1;
    }
    let mut e: usize = 0;
    while e < log.events.len()
        invariant
            log.wf(),
            n == log.objects.len(),
            e <= log.events.len(),
            nodes.len() == n,
            neighbours.len() == n,
            forall|o: usize|
                o < n ==> (#[trigger] nodes@[o as int] <==> log.valid_object(o) && seen_before(log, e, o)),
            forall|a: usize| a < n ==> (#[trigger] neighbours@[a as int]@).no_duplicates(),
            forall|a: usize, b: usize|
                a < n ==> (#[trigger] neighbours@[a as int]@.contains(b) <==> a != b && log.valid_object(a)
                    && log.valid_object(b) && met_before(log, e, a, b)),
        decreases log.events.len() - e,
    {
        let omap = &log.events[e].omap;
        let ghost nodes0 = nodes@;
        let ghost nb0 = neighbours@;
        let mut i: usize = 0;
        while i < omap.len()
            invariant
                log.wf(),
                n == log.objects.len(),
                e < log.events.len(),
                omap@ == log.omap(e),
                i <= omap.len(),
                nodes.len() == n,
                neighbours.len() == n,
                nb0.len() == n,
                nodes0.len() == n,
                forall|o: usize|
                    o < n ==> (#[trigger] nodes@[o as int] <==> nodes0[o as int] || (log.valid_object(o)
                        && in_prefix(omap@, i as int, o))),
                forall|a: usize| a < n ==> (#[trigger] neighbours@[a as int]@).no_duplicates(),
                forall|a: usize, b: usize|
                    a < n ==> (#[trigger] neighbours@[a as int]@.contains(b) <==> nb0[a as int]@.contains(b)
                        || (a != b && log.valid_object(a) && log.valid_object(b)
                        && in_prefix(omap@, i as int, a) && omap@.contains(b))),
            decreases omap.len() - i,
        {
            let x = omap[i];
            proof {
                lemma_prefix_step(omap@, i as int);
            }
            if is_valid_object(log, x) {
                nodes.set(x, true);
                let ghost nb1 = neighbours@;
                let mut j: usize = 0;
                while j < omap.len()
                    invariant
                        log.wf(),
                        n == log.objects.len(),
                        e < log.events.len(),
                        omap@ == log.omap(e),
                        i < omap.len(),
                        x == omap@[i as int],
                        x < n,
                        log.valid_object(x),
                        j <= omap.len(),
                        neighbours.len() == n,
                        nb1.len() == n,
                        forall|a: usize| a < n ==> (#[trigger] neighbours@[a as int]@).no_duplicates(),
                        forall|a: usize| a < n && a != x ==> #[trigger] neighbours@[a as int] == nb1[a as int],
                        forall|b: usize|
                            (#[trigger] neighbours@[x as int]@.contains(b) <==> nb1[x as int]@.contains(b)
                                || (x != b && log.valid_object(b) && in_prefix(omap@, j as int, b))),
                    decreases omap.len() - j,
                {
                    let y = omap[j];
                    proof {
                        lemma_prefix_step(omap@, j as int);
                    }
                    let ghost row0 = neighbours@[x as int]@;
                    if y != x && is_valid_object(log, y) {
                        insert_id(&mut neighbours[x], y);
                        proof {
                            assert forall|b: usize| #[trigger] neighbours@[x as int]@.contains(b) <==> row0.contains(b) || b == y by {
                                assert(neighbours@[x as int]@.to_set().contains(b) == neighbours@[x as int]@.contains(b));
                                assert(row0.to_set().contains(b) == row0.contains(b));
                            }
                        }
                    }
                    j = j + 1;
                }
                proof {
                    lemma_prefix_full(omap@);
                }
            }
            i = i + 1;
        }
        proof {
            lemma_prefix_full(omap@);
            lemma_before_step(log, e);
        }
        e = e + 1;
    }
    let r = NeighbourIndex { nodes, neighbours };
    proof {
        assert forall|o: usize| o < log.objects.len() implies (r.nodes@[o as int] <==> #[trigger] log.is_node(o)) by {
            if log.is_node(o) {
                let f = choose|f: usize| #[trigger] log.in_event(f, o);
                assert(f < log.events.len());
                assert(seen_before(log, e, o));
            }
        }
        assert forall|a: usize, b: usize|
            a < log.objects.len() implies (r.neighbours@[a as int]@.contains(b) <==> #[trigger] log.co_occur(a, b)) by {
            if log.co_occur(a, b) {
                let f = choose|f: usize| #[trigger] log.in_event(f, a) && log.in_event(f, b);
                assert(f < log.events.len());
                assert(met_before(log, e, a, b));
            }
        }
    }
    r
}

} // verus!
