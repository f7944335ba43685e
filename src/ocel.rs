use vstd::prelude::*;
use crate::eventset::insert_id;

verus! {

/// An object of the log: its type and the ids of the events it takes part in,
/// in the order in which they happened.
pub struct OcelObject {
    pub obj_type: String,
    pub events: Vec<usize>,
}

/// An event of the log: its activity, its time in milliseconds since the epoch,
/// and the dense ids of the objects that take part in it.
pub struct OcelEvent {
    pub activity: String,
    pub timestamp: i64,
    pub omap: Vec<usize>,
}

/// An object-centric event log. Objects and events are indexed by dense ids;
/// `object_map[o]` and `event_map[e]` hold their external ids.
pub struct Ocel {
    pub events: Vec<OcelEvent>,
    pub objects: Vec<OcelObject>,
    pub object_map: Vec<String>,
    pub event_map: Vec<String>,
    pub activities: Vec<String>,
}

/// Every element is smaller than the ones after it.
pub open spec fn strictly_ascending(s: Seq<usize>) -> bool {
    forall|i: int, j: int| 0 <= i < j < s.len() ==> s[i] < s[j]
}

impl Ocel {
    /// The event list of object `o`.
    pub open spec fn ev(&self, o: usize) -> Seq<usize> {
        self.objects@[o as int].events@
    }

    /// The type of object `o`.
    pub open spec fn otype(&self, o: usize) -> Seq<char> {
        self.objects@[o as int].obj_type@
    }

    /// The participants of event `e`.
    pub open spec fn omap(&self, e: usize) -> Seq<usize> {
        self.events@[e as int].omap@
    }

    /// The log is consistent: events are numbered in the order of their
    /// timestamps, each object's events are known event ids in ascending order,
    /// every known object holds each event that names it, no event names an
    /// object twice, and every dense id has its external id.
    pub open spec fn wf(&self) -> bool {
        &&& forall|i: int, j: int|
            0 <= i < j < self.events.len() ==> #[trigger] self.events@[i].timestamp
                <= #[trigger] self.events@[j].timestamp
        &&& forall|e: usize, o: usize|
            #[trigger] self.in_event(e, o) && o < self.objects.len() ==> self.ev(o).contains(e)
        &&& self.object_map.len() == self.objects.len()
        &&& self.event_map.len() == self.events.len()
        &&& forall|o: int|
            0 <= o < self.objects.len() ==> #[trigger] strictly_ascending(self.objects@[o].events@)
        &&& forall|o: int, j: int|
            0 <= o < self.objects.len() && 0 <= j < self.objects@[o].events.len()
                ==> #[trigger] self.objects@[o].events@[j] < self.events.len()
        &&& forall|e: int| 0 <= e < self.events.len() ==> #[trigger] self.events@[e].omap@.no_duplicates()
        &&& forall|i: int, j: int|
            0 <= i < j < self.object_map.len() ==> self.object_map@[i]@ != self.object_map@[j]@
    }

    /// Events name known objects only, and every object holds in its event
    /// list each event that names it.
    pub open spec fn consistent(&self) -> bool {
        forall|e: usize, o: usize|
            #[trigger] self.in_event(e, o) ==> o < self.objects.len() && self.ev(o).contains(e)
    }

    /// Object `o` exists and has at least one event; a reference to any other
    /// id is skipped when the graph is built.
    pub open spec fn valid_object(&self, o: usize) -> bool {
        o < self.objects.len() && self.objects@[o as int].events.len() > 0
    }

    /// Event `e` names object `o` among its participants.
    pub open spec fn in_event(&self, e: usize, o: usize) -> bool {
        e < self.events.len() && self.omap(e).contains(o)
    }

    /// Object `o` becomes a node of the graph: it is valid and takes part in an event.
    pub open spec fn is_node(&self, o: usize) -> bool {
        self.valid_object(o) && exists|e: usize| #[trigger] self.in_event(e, o)
    }

    /// `a` and `b` are distinct valid objects that share an event.
    pub open spec fn co_occur(&self, a: usize, b: usize) -> bool {
        &&& a != b
        &&& self.valid_object(a)
        &&& self.valid_object(b)
        &&& exists|e: usize| #[trigger] self.in_event(e, a) && self.in_event(e, b)
    }

    /// An empty log.
    pub fn new() -> (r: Ocel)
        ensures
            r.wf(),
            r.consistent(),
            r.events.len() == 0,
            r.objects.len() == 0,
            r.activities.len() == 0,
    {
        Ocel {
            events: Vec::new(),
            objects: Vec::new(),
            object_map: Vec::new(),
            event_map: Vec::new(),
            activities: Vec::new(),
        }
    }
}

/// An object named by an event that is being added: its type and its external id.
pub struct BuilderObject(pub String, pub String);

/// Some entry of `objs` has the external id `name` and the type `ty`.
pub open spec fn named_with_type(objs: Seq<BuilderObject>, name: Seq<char>, ty: Seq<char>) -> bool {
    exists|j: int| 0 <= j < objs.len() && (#[trigger] objs[j]).1@ == name && objs[j].0@ == ty
}

/// Some object of `names` has the external id `name`.
pub open spec fn registered(names: Seq<String>, name: Seq<char>) -> bool {
    exists|o: int| 0 <= o < names.len() && (#[trigger] names[o])@ == name
}

/// Some entry of `objs` has the external id `name`.
pub open spec fn named(objs: Seq<BuilderObject>, name: Seq<char>) -> bool {
    exists|j: int| 0 <= j < objs.len() && (#[trigger] objs[j]).1@ == name
}

impl Ocel {
    /// The dense id of the object with external id `name`, if there is one.
    pub fn object_index(&self, name: &String) -> (r: Option<usize>)
        ensures
            r is Some ==> r->Some_0 < self.object_map.len() && self.object_map@[r->Some_0 as int]@ == name@,
            r is None ==> forall|o: int| 0 <= o < self.object_map.len() ==> self.object_map@[o]@ != name@,
    {
        let mut i: usize = 0;
        while i < self.object_map.len()
            invariant
                i <= self.object_map.len(),
                forall|o: int| 0 <= o < i ==> self.object_map@[o]@ != name@,
            decreases self.object_map.len() - i,
        {
            if self.object_map[i] == *name {
                return Some(i);
            }
            i = i + 1;
        }
        None
    }

    /// Adds an event that happened after all the events already in the log.
    /// Each object in `objs` that the log does not know yet is created with
    /// the given type; the event is appended to the event list of every object
    /// it names, and its activity to `activities` if it is new.
    pub fn add_event(&mut self, event_name: &str, time: i64, activity: &str, objs: Vec<BuilderObject>)
        requires
            old(self).wf(),
            old(self).consistent(),
            old(self).events.len() > 0 ==> old(self).events@[old(self).events.len() - 1].timestamp <= time,
            old(self).events.len() < usize::MAX,
            old(self).objects.len() + objs.len() < usize::MAX,
        ensures
            final(self).wf(),
            final(self).events.len() == old(self).events.len() + 1,
            forall|e: int| 0 <= e < old(self).events.len() ==> #[trigger] final(self).events@[e] == old(self).events@[e],
            final(self).events@[old(self).events.len() as int].activity@ == activity@,
            final(self).events@[old(self).events.len() as int].timestamp == time,
            forall|o: usize|
                #[trigger] final(self).events@[old(self).events.len() as int].omap@.contains(o) <==> o
                    < final(self).objects.len() && named(objs@, final(self).object_map@[o as int]@),
            final(self).event_map.len() == old(self).event_map.len() + 1,
            forall|e: int| 0 <= e < old(self).event_map.len() ==> #[trigger] final(self).event_map@[e] == old(self).event_map@[e],
            final(self).event_map@[old(self).event_map.len() as int]@ == event_name@,
            final(self).objects.len() >= old(self).objects.len(),
            final(self).object_map.len() == final(self).objects.len(),
            forall|o: int| 0 <= o < old(self).objects.len() ==> #[trigger] final(self).object_map@[o] == old(self).object_map@[o],
            forall|o: usize|
                o < old(self).objects.len() ==> #[trigger] final(self).otype(o) == old(self).otype(o) && final(self).ev(o)
                    == if named(objs@, old(self).object_map@[o as int]@) {
                    old(self).ev(o).push(old(self).events.len())
                } else {
                    old(self).ev(o)
                },
            forall|o: usize|
                old(self).objects.len() <= o < final(self).objects.len() ==> named(objs@, #[trigger] final(self).object_map@[o as int]@)
                    && final(self).ev(o) == seq![old(self).events.len()]
                    && (forall|p: int| 0 <= p < old(self).objects.len() ==> old(self).object_map@[p]@ != final(self).object_map@[o as int]@)
                    && named_with_type(objs@, final(self).object_map@[o as int]@, final(self).otype(o)),
            forall|j: int| 0 <= j < objs.len() ==> registered(final(self).object_map@, (#[trigger] objs@[j]).1@),
            exists|a: int| 0 <= a < final(self).activities.len() && final(self).activities@[a]@ == activity@,
            old(self).activities.len() <= final(self).activities.len() <= old(self).activities.len() + 1,
            forall|a: int| 0 <= a < old(self).activities.len() ==> #[trigger] final(self).activities@[a] == old(self).activities@[a],
            final(self).consistent(),
    {
        let eid = self.events.len();
        let ghost n0 = self.objects.len();
        let mut omap: Vec<usize> = Vec::new();
        let ghost mut src_of: Seq<int> = Seq::empty();
        let mut j: usize = 0;
        while j < objs.len()
            invariant
                old(self).wf(),
                self.events@ == old(self).events@,
                self.event_map@ == old(self).event_map@,
                self.activities@ == old(self).activities@,
                eid == old(self).events.len(),
                n0 == old(self).objects.len(),
                old(self).objects.len() + objs.len() < usize::MAX,
                j <= objs.len(),
                self.objects.len() <= n0 + j,
                self.objects.len() >= n0,
                self.object_map.len() == self.objects.len(),
                forall|o: int| 0 <= o < n0 ==> #[trigger] self.objects@[o] == old(self).objects@[o],
                forall|o: int| 0 <= o < n0 ==> #[trigger] self.object_map@[o] == old(self).object_map@[o],
                forall|a: int, b: int|
                    0 <= a < b < self.object_map.len() ==> self.object_map@[a]@ != self.object_map@[b]@,
                forall|o: int| n0 <= o < self.objects.len() ==> (#[trigger] self.objects@[o]).events@ == Seq::<usize>::empty(),
                src_of.len() == self.objects.len() - n0,
                forall|o: int|
                    n0 <= o < self.objects.len() ==> 0 <= #[trigger] src_of[o - n0] < j && objs@[src_of[o - n0]].1@ == self.object_map@[o]@
                        && objs@[src_of[o - n0]].0@ == self.objects@[o].obj_type@,
                forall|o: int|
                    n0 <= o < self.objects.len() ==> forall|p: int| 0 <= p < n0 ==> old(self).object_map@[p]@ != #[trigger] self.object_map@[o]@,
                omap@.no_duplicates(),
                forall|o: usize|
                    #[trigger] omap@.contains(o) <==> o < self.objects.len() && exists|q: int|
                        0 <= q < j && (#[trigger] objs@[q]).1@ == self.object_map@[o as int]@,
                forall|q: int|
                    0 <= q < j ==> exists|o: int| 0 <= o < self.objects.len() && self.object_map@[o]@ == (#[trigger] objs@[q]).1@,
            decreases objs.len() - j,
        {
            let name = &objs[j].1;
            let ghost omap0 = omap@;
            let ghost om0 = self.object_map@;
            let ghost ob0 = self.objects@;
            let o = match self.object_index(name) {
                Some(o) => o,
                None => {
                    let o = self.objects.len();
                    self.objects.push(OcelObject { obj_type: objs[j].0.clone(), events: Vec::new() });
                    self.object_map.push(name.clone());
                    proof {
                        src_of = src_of.push(j as int);
                        assert(self.object_map@[o as int]@ == name@);
                        assert(self.objects@[o as int].obj_type@ == objs@[j as int].0@);
                        assert forall|x: int|
                            n0 <= x < self.object_map.len() implies forall|p: int| 0 <= p < n0 ==> old(self).object_map@[p]@ != #[trigger] self.object_map@[x]@ by {
                            if x < o {
                                assert(self.object_map@[x] == om0[x]);
                            } else {
                                assert forall|p: int| 0 <= p < n0 implies old(self).object_map@[p]@ != #[trigger] self.object_map@[x]@ by {
                                    assert(om0[p] == old(self).object_map@[p]);
                                }
                            }
                        }
                        assert forall|a: int, b: int|
                            0 <= a < b < self.object_map.len() implies self.object_map@[a]@ != self.object_map@[b]@ by {
                            if b < o {
                                assert(self.object_map@[a] == om0[a]);
                                assert(self.object_map@[b] == om0[b]);
                            } else {
                                assert(self.object_map@[a] == om0[a]);
                            }
                        }
                    }
                    o
                },
            };
            insert_id(&mut omap, o);
            proof {
                assert(self.object_map@[o as int]@ == objs@[j as int].1@);
                assert forall|x: usize| #[trigger] omap@.contains(x) <==> omap0.contains(x) || x == o by {
                    assert(omap@.to_set().contains(x) == omap@.contains(x));
                    assert(omap0.to_set().contains(x) == omap0.contains(x));
                }
                assert forall|x: usize|
                    #[trigger] omap@.contains(x) <==> x < self.objects.len() && exists|q: int|
                        0 <= q < j + 1 && (#[trigger] objs@[q]).1@ == self.object_map@[x as int]@ by {
                    if x < om0.len() {
                        assert(self.object_map@[x as int] == om0[x as int]);
                    }
                    if x < self.objects.len() && (exists|q: int| 0 <= q < j + 1 && (#[trigger] objs@[q]).1@ == self.object_map@[x as int]@) {
                        let q = choose|q: int| 0 <= q < j + 1 && (#[trigger] objs@[q]).1@ == self.object_map@[x as int]@;
                        if q == j {
                            if x != o {
                                assert(self.object_map@[x as int]@ == self.object_map@[o as int]@);
                                if x < o {
                                    assert(false);
                                } else {
                                    assert(false);
                                }
                            }
                        }
                    }
                    if omap@.contains(x) && !omap0.contains(x) {
                        assert(x == o);
                        assert(objs@[j as int].1@ == self.object_map@[x as int]@);
                    }
                }
                assert forall|q: int|
                    0 <= q < j + 1 implies exists|o2: int| 0 <= o2 < self.objects.len() && self.object_map@[o2]@ == (#[trigger] objs@[q]).1@ by {
                    if q < j {
                        let o2 = choose|o2: int| 0 <= o2 < om0.len() && om0[o2]@ == objs@[q].1@;
                        assert(self.object_map@[o2] == om0[o2]);
                    } else {
                        assert(self.object_map@[o as int]@ == objs@[q].1@);
                    }
                }
                assert forall|x: int|
                    n0 <= x < self.objects.len() implies 0 <= #[trigger] src_of[x - n0] < j + 1 && objs@[src_of[x - n0]].1@ == self.object_map@[x]@
                        && objs@[src_of[x - n0]].0@ == self.objects@[x].obj_type@ by {
                    if x < ob0.len() {
                        assert(self.object_map@[x] == om0[x]);
                        assert(self.objects@[x] == ob0[x]);
                    } else {
                        assert(x == o);
                        assert(src_of[x - n0] == j);
                        assert(objs@[j as int].1@ == self.object_map@[x]@);
                        assert(objs@[j as int].0@ == self.objects@[x].obj_type@);
                    }
                }
            }
            j = j + 1;
        }
        // append the event to the event list of each object it names
        proof {
            assert forall|q: int| 0 <= q < omap.len() implies omap@[q] < self.objects.len() by {
                assert(omap@.contains(omap@[q]));
            }
        }
        let ghost objs_before = self.objects@;
        let ghost om1 = self.object_map@;
        let mut i: usize = 0;
        while i < omap.len()
            invariant
                old(self).wf(),
                self.events@ == old(self).events@,
                self.event_map@ == old(self).event_map@,
                self.activities@ == old(self).activities@,
                self.object_map@ == om1,
                om1.len() == objs_before.len(),
                eid == old(self).events.len(),
                n0 == old(self).objects.len(),
                i <= omap.len(),
                omap@.no_duplicates(),
                forall|q: int| 0 <= q < omap.len() ==> omap@[q] < objs_before.len(),
                self.objects.len() == objs_before.len(),
                forall|o: int|
                    0 <= o < self.objects.len() ==> (#[trigger] self.objects@[o]).obj_type == objs_before[o].obj_type,
                forall|o: int|
                    0 <= o < self.objects.len() ==> (#[trigger] self.objects@[o]).events@ == if exists|q: int|
                        0 <= q < i && omap@[q] == o {
                        objs_before[o].events@.push(eid)
                    } else {
                        objs_before[o].events@
                    },
            decreases omap.len() - i,
        {
            let o = omap[i];
            assert(omap@.contains(o));
            let ghost before_i = self.objects@;
            self.objects[o].events.push(eid);
            proof {
                assert forall|x: int|
                    0 <= x < self.objects.len() implies (#[trigger] self.objects@[x]).events@ == if exists|q: int|
                        0 <= q < i + 1 && omap@[q] == x {
                        objs_before[x].events@.push(eid)
                    } else {
                        objs_before[x].events@
                    } by {
                    if x == o {
                        assert(omap@[i as int] == x);
                        assert(!exists|q: int| 0 <= q < i && omap@[q] == x);
                    } else {
                        assert(self.objects@[x] == before_i[x]);
                        if exists|q: int| 0 <= q < i + 1 && omap@[q] == x {
                            let q = choose|q: int| 0 <= q < i + 1 && omap@[q] == x;
                            assert(q < i);
                        }
                    }
                }
                assert forall|x: int|
                    0 <= x < self.objects.len() implies (#[trigger] self.objects@[x]).obj_type == objs_before[x].obj_type by {
                    if x != o {
                        assert(self.objects@[x] == before_i[x]);
                    }
                }
            }
            i = i + 1;
        }
        self.event_map.push(event_name.to_owned());
        self.events.push(OcelEvent { activity: activity.to_owned(), timestamp: time, omap });
        let act = activity.to_owned();
        let mut k: usize = 0;
        let mut known = false;
        let ghost fin_events = self.events@;
        let ghost fin_objects = self.objects@;
        let ghost fin_em = self.event_map@;
        while k < self.activities.len()
            invariant
                self.events@ == fin_events,
                self.objects@ == fin_objects,
                self.event_map@ == fin_em,
                self.object_map@ == om1,
                act@ == activity@,
                k <= self.activities.len(),
                known ==> exists|a: int| 0 <= a < self.activities.len() && self.activities@[a]@ == activity@,
            decreases self.activities.len() - k,
        {
            if self.activities[k] == act {
                known = true;
            }
            k = k + 1;
        }
        if !known {
            self.activities.push(act);
            assert(self.activities@[self.activities.len() - 1]@ == activity@);
        }
        proof {
            assert forall|o: usize| #[trigger] self.events@[eid as int].omap@.contains(o) <==> o
                    < self.objects.len() && named(objs@, self.object_map@[o as int]@) by {
                assert(self.events@[eid as int].omap@ == omap@);
            }
            assert forall|o: int|
                0 <= o < self.objects.len() implies #[trigger] strictly_ascending(self.objects@[o].events@) by {
                let ev = self.objects@[o].events@;
                if o < n0 {
                    assert(objs_before[o] == old(self).objects@[o]);
                    assert(strictly_ascending(old(self).objects@[o].events@));
                    if exists|q: int| 0 <= q < omap.len() && omap@[q] == o {
                        let old_ev = old(self).objects@[o].events@;
                        assert(ev == old_ev.push(eid));
                        assert forall|a: int, b: int| 0 <= a < b < ev.len() implies ev[a] < ev[b] by {
                            if b == ev.len() - 1 {
                                assert(old_ev[a] < old(self).events.len());
                            }
                        }
                    }
                } else {
                    assert(objs_before[o].events@ == Seq::<usize>::empty());
                    let q = src_of[o - n0];
                    assert(objs@[q].1@ == self.object_map@[o]@);
                    assert(omap@.contains(o as usize));
                    let q2 = choose|q2: int| 0 <= q2 < omap.len() && omap@[q2] == o;
                }
            }
            assert forall|o: int, jj: int|
                0 <= o < self.objects.len() && 0 <= jj < self.objects@[o].events.len()
                    implies #[trigger] self.objects@[o].events@[jj] < self.events.len() by {
                if o < n0 {
                    assert(objs_before[o] == old(self).objects@[o]);
                    if jj < old(self).objects@[o].events.len() {
                        assert(old(self).objects@[o].events@[jj] < old(self).events.len());
                    }
                } else {
                    assert(objs_before[o].events@ == Seq::<usize>::empty());
                }
            }
            assert forall|e: int| 0 <= e < self.events.len() implies #[trigger] self.events@[e].omap@.no_duplicates() by {
                if e < eid {
                    assert(self.events@[e] == old(self).events@[e]);
                }
            }
            assert forall|o: usize|
                o < n0 implies #[trigger] self.otype(o) == old(self).otype(o) && self.ev(o)
                    == if named(objs@, old(self).object_map@[o as int]@) {
                    old(self).ev(o).push(old(self).events.len())
                } else {
                    old(self).ev(o)
                } by {
                assert(objs_before[o as int] == old(self).objects@[o as int]);
                assert(self.object_map@[o as int] == old(self).object_map@[o as int]);
                if named(objs@, old(self).object_map@[o as int]@) {
                    assert(omap@.contains(o));
                    let q = choose|q: int| 0 <= q < omap.len() && omap@[q] == o;
                } else {
                    if exists|q: int| 0 <= q < omap.len() && omap@[q] == o {
                        let q = choose|q: int| 0 <= q < omap.len() && omap@[q] == o;
                        assert(omap@.contains(o));
                    }
                }
            }
            assert forall|o: usize|
                n0 <= o < self.objects.len() implies named(objs@, #[trigger] self.object_map@[o as int]@)
                    && self.ev(o) == seq![old(self).events.len()]
                    && (forall|p: int| 0 <= p < n0 ==> old(self).object_map@[p]@ != self.object_map@[o as int]@)
                    && named_with_type(objs@, self.object_map@[o as int]@, self.otype(o)) by {
                assert(objs_before[o as int].events@ == Seq::<usize>::empty());
                let q = src_of[o - n0];
                assert(objs@[q].1@ == self.object_map@[o as int]@ && objs@[q].0@ == self.otype(o));
                assert(omap@.contains(o));
                let q2 = choose|q2: int| 0 <= q2 < omap.len() && omap@[q2] == o;
                assert(self.ev(o) =~= seq![old(self).events.len()]);
            }
            assert forall|i: int, j: int|
                0 <= i < j < self.events.len() implies #[trigger] self.events@[i].timestamp
                    <= #[trigger] self.events@[j].timestamp by {
                if j == eid {
                    if i < eid - 1 {
                        assert(old(self).events@[i].timestamp <= old(self).events@[eid - 1].timestamp);
                    }
                    assert(self.events@[i] == old(self).events@[i]);
                } else {
                    assert(self.events@[i] == old(self).events@[i]);
                    assert(self.events@[j] == old(self).events@[j]);
                }
            }
            assert forall|e: usize, o: usize|
                #[trigger] self.in_event(e, o) implies o < self.objects.len() && self.ev(o).contains(e) by {
                if e < eid {
                    assert(self.events@[e as int] == old(self).events@[e as int]);
                    assert(old(self).in_event(e, o));
                    assert(o < n0);
                    let old_ev = old(self).ev(o);
                    let q = choose|q: int| 0 <= q < old_ev.len() && old_ev[q] == e;
                    assert(self.ev(o)[q] == e);
                } else {
                    assert(e == eid);
                    assert(self.events@[eid as int].omap@.contains(o));
                    if o < n0 {
                        assert(self.object_map@[o as int] == old(self).object_map@[o as int]);
                        assert(named(objs@, old(self).object_map@[o as int]@));
                        assert(self.ev(o)[self.ev(o).len() - 1] == e);
                    } else {
                        assert(self.ev(o)[0] == e);
                    }
                }
            }
            assert forall|q: int| 0 <= q < objs.len() implies registered(self.object_map@, (#[trigger] objs@[q]).1@) by {
                let o2 = choose|o2: int| 0 <= o2 < om1.len() && om1[o2]@ == objs@[q].1@;
                assert(self.object_map@[o2] == om1[o2]);
            }
        }
    }
}

} // verus!
