use vstd::prelude::*;
use crate::eventset::{copy_ids, insert_id};
use crate::ocdg::{NodeInfo, Ocdg, RelationEntry};
use crate::relations::Relations;

verus! {

/// The Descendants edge `s -> t` shares its source and the type of its target
/// with another Descendants edge of `g`.
pub open spec fn ambiguous(g: &Ocdg, s: usize, t: usize) -> bool {
    exists|t2: usize|
        t2 != t && #[trigger] g.rel_exists(s, t2, Relations::DESCENDANTS) && g.node_type_of(t2)
            == g.node_type_of(t)
}

/// The decomposition removes the Descendants edge `s -> t` of `g`.
pub open spec fn removed(g: &Ocdg, s: usize, t: usize) -> bool {
    g.rel_exists(s, t, Relations::DESCENDANTS) && ambiguous(g, s, t)
}

impl Ocdg {
    /// The targets of the edges removed from node `o` as a source.
    pub open spec fn src_cut_of(&self, o: usize) -> Set<usize> {
        self.node_attributes@[o as int]->Some_0.src_cut@.to_set()
    }

    /// The sources of the edges removed from node `o` as a target.
    pub open spec fn tar_cut_of(&self, o: usize) -> Set<usize> {
        self.node_attributes@[o as int]->Some_0.tar_cut@.to_set()
    }
}

/// `after` is `before` with every ambiguous Descendants entry removed, each
/// removal recorded in the cuts of both of its nodes, and nothing else changed.
pub open spec fn decomposition_of(before: &Ocdg, after: &Ocdg) -> bool {
    &&& after.wf()
    &&& after.node_attributes.len() == before.node_attributes.len()
    &&& forall|o: usize| #[trigger] after.is_node(o) <==> before.is_node(o)
    &&& forall|o: usize|
        #[trigger] before.is_node(o) ==> after.node_type_of(o) == before.node_type_of(o)
            && after.src_cut_of(o) == before.src_cut_of(o).union(
            Set::new(|t: usize| removed(before, o, t)),
        ) && after.tar_cut_of(o) == before.tar_cut_of(o).union(
            Set::new(|s: usize| removed(before, s, o)),
        )
    &&& forall|s: usize, t: usize, k: Relations, w: Set<usize>|
        #[trigger] after.has_relation(s, t, k, w) <==> before.has_relation(s, t, k, w) && !(k
            == Relations::DESCENDANTS && ambiguous(before, s, t))
    &&& after.object_map@ == before.object_map@
    &&& after.event_map@ == before.event_map@
}

/// The type of node `o`.
fn node_type_ref(g: &Ocdg, o: usize) -> (r: &String)
    requires
        g.is_node(o),
    ensures
        r@ == g.node_type_of(o),
{
    match &g.node_attributes[o] {
        Some(info) => &info.node_type,
        None => vstd::pervasive::unreached(),
    }
}

/// For each entry, whether it is a Descendants entry that the decomposition removes.
fn ambiguous_marks(g: &Ocdg) -> (r: Vec<bool>)
    requires
        g.wf(),
    ensures
        r.len() == g.irels.len(),
        forall|i: int|
            0 <= i < g.irels.len() ==> (#[trigger] r@[i] <==> g.irels@[i].relation
                == Relations::DESCENDANTS && ambiguous(g, g.irels@[i].source, g.irels@[i].target)),
{
    let mut marks: Vec<bool> = Vec::new();
    let mut i: usize = 0;
    while i < g.irels.len()
        invariant
            g.wf(),
            i <= g.irels.len(),
            marks.len() == i,
            forall|p: int|
                0 <= p < i ==> (#[trigger] marks@[p] <==> g.irels@[p].relation
                    == Relations::DESCENDANTS && ambiguous(g, g.irels@[p].source, g.irels@[p].target)),
        decreases g.irels.len() - i,
    {
        let en = &g.irels[i];
        let mut found = false;
        if en.relation == Relations::DESCENDANTS {
            let s = en.source;
            let t = en.target;
            assert(g.is_node(g.irels@[i as int].target));
            let t_type = node_type_ref(g, t);
            let mut j: usize = 0;
            while j < g.irels.len()
                invariant
                    g.wf(),
                    i < g.irels.len(),
                    s == g.irels@[i as int].source,
                    t == g.irels@[i as int].target,
                    g.is_node(t),
                    t_type@ == g.node_type_of(t),
                    j <= g.irels.len(),
                    found ==> ambiguous(g, s, t),
                    !found ==> forall|p: int|
                        0 <= p < j && (#[trigger] g.irels@[p]).relation == Relations::DESCENDANTS
                            && g.irels@[p].source == s ==> g.irels@[p].target == t
                            || g.node_type_of(g.irels@[p].target) != g.node_type_of(t),
                decreases g.irels.len() - j,
            {
                let other = &g.irels[j];
                if !found && other.relation == Relations::DESCENDANTS && other.source == s
                    && other.target != t {
                    assert(g.is_node(g.irels@[j as int].target));
                    let o_type = node_type_ref(g, other.target);
                    if *o_type == *t_type {
                        found = true;
                        assert(g.key_at(j as int) == (s, g.irels@[j as int].target, Relations::DESCENDANTS));
                        assert(g.rel_exists(s, g.irels@[j as int].target, Relations::DESCENDANTS));
                    }
                }
                j = j + 1;
            }
            proof {
                if !found && ambiguous(g, s, t) {
                    let t2 = choose|t2: usize|
                        t2 != t && #[trigger] g.rel_exists(s, t2, Relations::DESCENDANTS)
                            && g.node_type_of(t2) == g.node_type_of(t);
                    let p = choose|p: int| 0 <= p < g.irels.len() && #[trigger] g.key_at(p) == (s, t2, Relations::DESCENDANTS);
                    assert(g.irels@[p].relation == Relations::DESCENDANTS);
                }
            }
        }
        marks.push(found);
        i = i + 1;
    }
    marks
}

/// The entries that are not marked, in their order; `idx` maps each kept entry
/// to its position in `g`.
fn kept_relations(g: &Ocdg, marks: &Vec<bool>) -> (res: (Vec<RelationEntry>, Ghost<Seq<int>>))
    requires
        g.wf(),
        marks.len() == g.irels.len(),
    ensures
        res.1@.len() == res.0.len(),
        forall|m: int| 0 <= m < res.0.len() ==> 0 <= #[trigger] res.1@[m] < g.irels.len() && !marks@[res.1@[m]],
        forall|m: int, n: int| 0 <= m < n < res.0.len() ==> #[trigger] res.1@[m] < #[trigger] res.1@[n],
        forall|m: int|
            0 <= m < res.0.len() ==> (#[trigger] res.0@[m]).key() == g.key_at(res.1@[m]) && res.0@[m].events@
                == g.irels@[res.1@[m]].events@,
        forall|p: int| 0 <= p < g.irels.len() && !marks@[p] ==> exists|m: int| 0 <= m < res.0.len() && #[trigger] res.1@[m] == p,
{
    let mut r: Vec<RelationEntry> = Vec::new();
    let ghost mut idx: Seq<int> = Seq::empty();
    let mut i: usize = 0;
    while i < g.irels.len()
        invariant
            g.wf(),
            marks.len() == g.irels.len(),
            i <= g.irels.len(),
            idx.len() == r.len(),
            forall|m: int| 0 <= m < r.len() ==> 0 <= #[trigger] idx[m] < i && !marks@[idx[m]],
            forall|m: int, n: int| 0 <= m < n < r.len() ==> #[trigger] idx[m] < #[trigger] idx[n],
            forall|m: int|
                0 <= m < r.len() ==> (#[trigger] r@[m]).key() == g.key_at(idx[m]) && r@[m].events@
                    == g.irels@[idx[m]].events@,
            forall|p: int| 0 <= p < i && !marks@[p] ==> exists|m: int| 0 <= m < r.len() && #[trigger] idx[m] == p,
        decreases g.irels.len() - i,
    {
        if !marks[i] {
            let en = &g.irels[i];
            let entry = RelationEntry {
                source: en.source,
                target: en.target,
                relation: en.relation,
                events: copy_ids(&en.events),
            };
            let ghost idx0 = idx;
            r.push(entry);
            proof {
                idx = idx.push(i as int);
                assert(idx[idx.len() - 1] == i);
                assert forall|p: int| 0 <= p < i + 1 && !marks@[p] implies exists|m: int| 0 <= m < r.len() && #[trigger] idx[m] == p by {
                    if p < i {
                        let m = choose|m: int| 0 <= m < idx0.len() && #[trigger] idx0[m] == p;
                        assert(idx[m] == p);
                    } else {
                        assert(idx[idx.len() - 1] == p);
                    }
                }
            }
        }
        i = i + 1;
    }
    (r, Ghost(idx))
}

/// The targets of the marked entries among the first `i` whose source is `o`.
pub open spec fn marked_targets(g: &Ocdg, marks: Seq<bool>, o: usize, i: int) -> Set<usize> {
    Set::new(
        |t: usize|
            exists|p: int|
                0 <= p < i && marks[p] && (#[trigger] g.irels@[p]).source == o && g.irels@[p].target
                    == t,
    )
}

/// The sources of the marked entries among the first `i` whose target is `o`.
pub open spec fn marked_sources(g: &Ocdg, marks: Seq<bool>, o: usize, i: int) -> Set<usize> {
    Set::new(
        |s: usize|
            exists|p: int|
                0 <= p < i && marks[p] && (#[trigger] g.irels@[p]).target == o && g.irels@[p].source
                    == s,
    )
}

/// The node table with the marked entries added to the cuts of their nodes.
fn cut_nodes(g: &Ocdg, marks: &Vec<bool>) -> (r: Vec<Option<NodeInfo>>)
    requires
        g.wf(),
        marks.len() == g.irels.len(),
    ensures
        r.len() == g.node_attributes.len(),
        forall|o: int|
            0 <= o < r.len() ==> ((#[trigger] r@[o]) is Some <==> g.node_attributes@[o] is Some),
        forall|o: int|
            0 <= o < r.len() && (#[trigger] r@[o]) is Some ==> r@[o]->Some_0.node_type@
                == g.node_attributes@[o]->Some_0.node_type@
                && r@[o]->Some_0.src_cut@.no_duplicates() && r@[o]->Some_0.tar_cut@.no_duplicates()
                && r@[o]->Some_0.src_cut@.to_set() == g.node_attributes@[o]->Some_0.src_cut@.to_set().union(
                marked_targets(g, marks@, o as usize, g.irels.len() as int),
            ) && r@[o]->Some_0.tar_cut@.to_set() == g.node_attributes@[o]->Some_0.tar_cut@.to_set().union(
                marked_sources(g, marks@, o as usize, g.irels.len() as int),
            ),
{
    let mut out: Vec<Option<NodeInfo>> = Vec::new();
    let mut o: usize = 0;
    while o < g.node_attributes.len()
        invariant
            g.wf(),
            marks.len() == g.irels.len(),
            o <= g.node_attributes.len(),
            out.len() == o,
            forall|q: int|
                0 <= q < o ==> ((#[trigger] out@[q]) is Some <==> g.node_attributes@[q] is Some),
            forall|q: int|
                0 <= q < o && (#[trigger] out@[q]) is Some ==> out@[q]->Some_0.node_type@
                    == g.node_attributes@[q]->Some_0.node_type@
                    && out@[q]->Some_0.src_cut@.no_duplicates() && out@[q]->Some_0.tar_cut@.no_duplicates()
                    && out@[q]->Some_0.src_cut@.to_set() == g.node_attributes@[q]->Some_0.src_cut@.to_set().union(
                    marked_targets(g, marks@, q as usize, g.irels.len() as int),
                ) && out@[q]->Some_0.tar_cut@.to_set() == g.node_attributes@[q]->Some_0.tar_cut@.to_set().union(
                    marked_sources(g, marks@, q as usize, g.irels.len() as int),
                ),
        decreases g.node_attributes.len() - o,
    {
        match &g.node_attributes[o] {
            None => {
                out.push(None);
            },
            Some(info) => {
                let mut src = copy_ids(&info.src_cut);
                let mut tar = copy_ids(&info.tar_cut);
                proof {
                    assert(g.node_attributes@[o as int] is Some);
                    assert(src@.to_set() =~= info.src_cut@.to_set().union(marked_targets(g, marks@, o, 0)));
                    assert(tar@.to_set() =~= info.tar_cut@.to_set().union(marked_sources(g, marks@, o, 0)));
                }
                let mut i: usize = 0;
                while i < g.irels.len()
                    invariant
                        g.wf(),
                        marks.len() == g.irels.len(),
                        i <= g.irels.len(),
                        src@.no_duplicates(),
                        tar@.no_duplicates(),
                        src@.to_set() == info.src_cut@.to_set().union(marked_targets(g, marks@, o, i as int)),
                        tar@.to_set() == info.tar_cut@.to_set().union(marked_sources(g, marks@, o, i as int)),
                    decreases g.irels.len() - i,
                {
                    let ghost src0 = src@;
                    let ghost tar0 = tar@;
                    if marks[i] && g.irels[i].source == o {
                        insert_id(&mut src, g.irels[i].target);
                    }
                    if marks[i] && g.irels[i].target == o {
                        insert_id(&mut tar, g.irels[i].source);
                    }
                    proof {
                        let mt0 = marked_targets(g, marks@, o, i as int);
                        let mt1 = marked_targets(g, marks@, o, i + 1);
                        let ms0 = marked_sources(g, marks@, o, i as int);
                        let ms1 = marked_sources(g, marks@, o, i + 1);
                        assert forall|t: usize| mt1.contains(t) <==> mt0.contains(t) || (marks@[i as int] && g.irels@[i as int].source == o && g.irels@[i as int].target == t) by {
                            if mt1.contains(t) {
                                let p = choose|p: int| 0 <= p < i + 1 && marks@[p] && (#[trigger] g.irels@[p]).source == o && g.irels@[p].target == t;
                                if p < i {
                                    assert(mt0.contains(t));
                                }
                            }
                            if mt0.contains(t) {
                                let p = choose|p: int| 0 <= p < i && marks@[p] && (#[trigger] g.irels@[p]).source == o && g.irels@[p].target == t;
                                assert(mt1.contains(t));
                            }
                            if marks@[i as int] && g.irels@[i as int].source == o && g.irels@[i as int].target == t {
                                assert(g.irels@[i as int].source == o);
                                assert(mt1.contains(t));
                            }
                        }
                        assert forall|u: usize| ms1.contains(u) <==> ms0.contains(u) || (marks@[i as int] && g.irels@[i as int].target == o && g.irels@[i as int].source == u) by {
                            if ms1.contains(u) {
                                let p = choose|p: int| 0 <= p < i + 1 && marks@[p] && (#[trigger] g.irels@[p]).target == o && g.irels@[p].source == u;
                                if p < i {
                                    assert(ms0.contains(u));
                                }
                            }
                            if ms0.contains(u) {
                                let p = choose|p: int| 0 <= p < i && marks@[p] && (#[trigger] g.irels@[p]).target == o && g.irels@[p].source == u;
                                assert(ms1.contains(u));
                            }
                            if marks@[i as int] && g.irels@[i as int].target == o && g.irels@[i as int].source == u {
                                assert(g.irels@[i as int].target == o);
                                assert(ms1.contains(u));
                            }
                        }
                        assert(src@.to_set() =~= info.src_cut@.to_set().union(mt1));
                        assert(tar@.to_set() =~= info.tar_cut@.to_set().union(ms1));
                    }
                    i = i + 1;
                }
                out.push(Some(NodeInfo { node_type: info.node_type.clone(), src_cut: src, tar_cut: tar }));
            },
        }
        o = o + 1;
    }
    out
}

/// Whether `v` holds the pair `p`.
fn contains_pair(v: &Vec<(usize, usize)>, p: (usize, usize)) -> (r: bool)
    ensures
        r == v@.contains(p),
{
    let mut i: usize = 0;
    while i < v.len()
        invariant
            i <= v.len(),
            forall|j: int| 0 <= j < i ==> v@[j] != p,
        decreases v.len() - i,
    {
        if v[i].0 == p.0 && v[i].1 == p.1 {
            return true;
        }
        i = i + 1;
    }
    false
}

/// Some entry of `rels` relates `s` to `t`.
pub open spec fn relates(rels: Seq<RelationEntry>, s: usize, t: usize) -> bool {
    exists|m: int| 0 <= m < rels.len() && (#[trigger] rels[m]).source == s && rels[m].target == t
}

/// The pairs of `net` that an entry of `rels` still relates.
fn filter_net(net: &Vec<(usize, usize)>, rels: &Vec<RelationEntry>) -> (r: Vec<(usize, usize)>)
    ensures
        r@.no_duplicates(),
        forall|s: usize, t: usize| #[trigger] r@.contains((s, t)) <==> net@.contains((s, t)) && relates(rels@, s, t),
{
    let mut out: Vec<(usize, usize)> = Vec::new();
    let mut i: usize = 0;
    while i < net.len()
        invariant
            i <= net.len(),
            out@.no_duplicates(),
            forall|s: usize, t: usize| #[trigger] out@.contains((s, t)) <==> (exists|j: int| 0 <= j < i && net@[j] == (s, t)) && relates(rels@, s, t),
        decreases net.len() - i,
    {
        let (s, t) = net[i];
        let mut found = false;
        let mut m: usize = 0;
        while m < rels.len()
            invariant
                m <= rels.len(),
                found == exists|q: int| 0 <= q < m && (#[trigger] rels@[q]).source == s && rels@[q].target == t,
            decreases rels.len() - m,
        {
            if rels[m].source == s && rels[m].target == t {
                found = true;
            }
            m = m + 1;
        }
        let ghost out0 = out@;
        if found && !contains_pair(&out, (s, t)) {
            out.push((s, t));
        }
        proof {
            assert forall|a: usize, b: usize| #[trigger] out@.contains((a, b)) <==> (exists|j: int| 0 <= j < i + 1 && net@[j] == (a, b)) && relates(rels@, a, b) by {
                if out@.contains((a, b)) {
                    let q = choose|q: int| 0 <= q < out@.len() && out@[q] == (a, b);
                    if q < out0.len() {
                        assert(out0[q] == (a, b));
                        assert(out0.contains((a, b)));
                        let j = choose|j: int| 0 <= j < i && net@[j] == (a, b);
                        assert(0 <= j < i + 1 && net@[j] == (a, b));
                    } else {
                        assert(net@[i as int] == (a, b));
                    }
                }
                if (exists|j: int| 0 <= j < i + 1 && net@[j] == (a, b)) && relates(rels@, a, b) {
                    let j = choose|j: int| 0 <= j < i + 1 && net@[j] == (a, b);
                    if j < i {
                        assert(out0.contains((a, b)));
                        let q = choose|q: int| 0 <= q < out0.len() && out0[q] == (a, b);
                        assert(out@[q] == (a, b));
                    } else {
                        if !out0.contains((a, b)) {
                            assert(out@[out0.len() as int] == (a, b));
                        } else {
                            let q = choose|q: int| 0 <= q < out0.len() && out0[q] == (a, b);
                            assert(out@[q] == (a, b));
                        }
                    }
                }
            }
        }
        i = i + 1;
    }
    proof {
        assert forall|s: usize, t: usize| #[trigger] out@.contains((s, t)) <==> net@.contains((s, t)) && relates(rels@, s, t) by {
            if net@.contains((s, t)) {
                let j = choose|j: int| 0 <= j < net.len() && net@[j] == (s, t);
                assert(0 <= j < i && net@[j] == (s, t));
            }
        }
    }
    out
}

/// Removes every ambiguous Descendants entry: one whose source has a
/// Descendants entry to another target of the same type. Each removal is
/// recorded in the source's `src_cut` and the target's `tar_cut`, and a pair
/// leaves `net` once no entry relates it.
pub fn general_object_split_in_place(ocdg: Ocdg) -> (r: Ocdg)
    requires
        ocdg.wf(),
    ensures
        decomposition_of(&ocdg, &r),
{
    let ghost g = ocdg;
    let marks = ambiguous_marks(&ocdg);
    let (kept, Ghost(idx)) = kept_relations(&ocdg, &marks);
    let nodes = cut_nodes(&ocdg, &marks);
    let net = filter_net(&ocdg.net, &kept);
    let Ocdg { net: _, node_attributes: _, object_map, event_map, irels: _ } = ocdg;
    let r = Ocdg { net, node_attributes: nodes, object_map, event_map, irels: kept };
    proof {
        assert forall|o: usize| #[trigger] r.is_node(o) <==> g.is_node(o) by {
            if o < r.node_attributes.len() {
                assert(r.node_attributes@[o as int] is Some <==> g.node_attributes@[o as int] is Some);
            }
        }
        // the marked entries are exactly the removed ones
        assert forall|o: usize, t: usize|
            #[trigger] marked_targets(&g, marks@, o, g.irels.len() as int).contains(t) <==> removed(&g, o, t) by {
            if marked_targets(&g, marks@, o, g.irels.len() as int).contains(t) {
                let p = choose|p: int|
                    0 <= p < g.irels.len() && marks@[p] && (#[trigger] g.irels@[p]).source == o
                        && g.irels@[p].target == t;
                assert(g.key_at(p) == (o, t, Relations::DESCENDANTS));
            }
            if removed(&g, o, t) {
                let p = choose|p: int| 0 <= p < g.irels.len() && #[trigger] g.key_at(p) == (o, t, Relations::DESCENDANTS);
                assert(marks@[p]);
                assert(g.irels@[p].source == o);
            }
        }
        assert forall|o: usize, u: usize|
            #[trigger] marked_sources(&g, marks@, o, g.irels.len() as int).contains(u) <==> removed(&g, u, o) by {
            if marked_sources(&g, marks@, o, g.irels.len() as int).contains(u) {
                let p = choose|p: int|
                    0 <= p < g.irels.len() && marks@[p] && (#[trigger] g.irels@[p]).target == o
                        && g.irels@[p].source == u;
                assert(g.key_at(p) == (u, o, Relations::DESCENDANTS));
            }
            if removed(&g, u, o) {
                let p = choose|p: int| 0 <= p < g.irels.len() && #[trigger] g.key_at(p) == (u, o, Relations::DESCENDANTS);
                assert(marks@[p]);
                assert(g.irels@[p].target == o);
            }
        }
        assert forall|o: usize|
            #[trigger] g.is_node(o) implies r.node_type_of(o) == g.node_type_of(o)
                && r.src_cut_of(o) == g.src_cut_of(o).union(Set::new(|t: usize| removed(&g, o, t)))
                && r.tar_cut_of(o) == g.tar_cut_of(o).union(Set::new(|s: usize| removed(&g, s, o))) by {
            assert(r.node_attributes@[o as int] is Some);
            assert(marked_targets(&g, marks@, o, g.irels.len() as int) =~= Set::new(|t: usize| removed(&g, o, t)));
            assert(marked_sources(&g, marks@, o, g.irels.len() as int) =~= Set::new(|s: usize| removed(&g, s, o)));
        }
        // the relation index keeps the unmarked entries
        assert forall|s: usize, t: usize, k: Relations, w: Set<usize>|
            #[trigger] r.has_relation(s, t, k, w) <==> g.has_relation(s, t, k, w) && !(k
                == Relations::DESCENDANTS && ambiguous(&g, s, t)) by {
            if r.has_relation(s, t, k, w) {
                let m = choose|m: int| 0 <= m < r.irels.len() && #[trigger] r.key_at(m) == (s, t, k) && r.events_at(m) == w;
                let i = idx[m];
                assert(g.key_at(i) == (s, t, k));
                assert(g.events_at(i) == w);
                assert(!marks@[i]);
            }
            if g.has_relation(s, t, k, w) && !(k == Relations::DESCENDANTS && ambiguous(&g, s, t)) {
                let i = choose|i: int| 0 <= i < g.irels.len() && #[trigger] g.key_at(i) == (s, t, k) && g.events_at(i) == w;
                assert(!marks@[i]);
                let m = choose|m: int| 0 <= m < kept.len() && #[trigger] idx[m] == i;
                assert(r.key_at(m) == (s, t, k));
                assert(r.events_at(m) == w);
            }
        }
        // well-formedness
        assert forall|m: int, n: int|
            0 <= m < r.irels.len() && 0 <= n < r.irels.len() && m != n implies #[trigger] r.key_at(m) != #[trigger] r.key_at(n) by {
            if m < n {
                assert(idx[m] < idx[n]);
            } else {
                assert(idx[n] < idx[m]);
            }
            assert(g.key_at(idx[m]) != g.key_at(idx[n]));
        }
        assert forall|m: int| 0 <= m < r.irels.len() implies (#[trigger] r.irels@[m]).events@.no_duplicates()
            && r.irels@[m].events.len() > 0 && r.is_node(r.irels@[m].source) && r.is_node(r.irels@[m].target) by {
            let i = idx[m];
            assert(g.irels@[i].events@.no_duplicates());
            assert(g.irels@[i].events.len() > 0);
            assert(g.is_node(g.irels@[i].source));
            assert(g.is_node(g.irels@[i].target));
        }
        assert forall|a: usize, b: usize| #[trigger] r.net@.contains((a, b)) <==> r.related(a, b) by {
            if r.related(a, b) {
                let m = choose|m: int| 0 <= m < r.irels.len() && (#[trigger] r.irels@[m]).source == a && r.irels@[m].target == b;
                assert(relates(kept@, a, b));
                let i = idx[m];
                assert(g.irels@[i].source == a);
                assert(g.related(a, b));
                assert(g.net@.contains((a, b)));
            }
            if r.net@.contains((a, b)) {
                assert(relates(kept@, a, b));
                let m = choose|m: int| 0 <= m < kept@.len() && (#[trigger] kept@[m]).source == a && kept@[m].target == b;
                assert(r.irels@[m].source == a);
            }
        }
        assert forall|o: int|
            0 <= o < r.node_attributes.len() && (#[trigger] r.node_attributes@[o]) is Some
                implies r.node_attributes@[o]->Some_0.src_cut@.no_duplicates()
                && r.node_attributes@[o]->Some_0.tar_cut@.no_duplicates() by {}
    }
    r
}

/// Applies the decompositions of the graph; the general object split is the one there is.
pub fn decompose_in_place(ocdg: Ocdg) -> (r: Ocdg)
    requires
        ocdg.wf(),
    ensures
        decomposition_of(&ocdg, &r),
{
    general_object_split_in_place(ocdg)
}

} // verus!
