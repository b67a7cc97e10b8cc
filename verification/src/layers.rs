//! Draw layers: which objects are drawn in which layer. Lower layers are
//! drawn first; an object is in at most one layer.

use std::collections::{HashMap, HashSet};

use vstd::prelude::*;

use crate::ids::ObjectId;
use vstd::std_specs::iter::IteratorSpec;

verus! {

broadcast use vstd::std_specs::hash::group_hash_axioms;

/// Whether `object` is in layer `layer` of `m`.
pub open spec fn in_layer(m: Map<usize, Set<usize>>, layer: usize, object: usize) -> bool {
    m.contains_key(layer) && m[layer].contains(object)
}

/// No object is in two layers.
pub open spec fn layers_disjoint(m: Map<usize, Set<usize>>) -> bool {
    forall|l1: usize, l2: usize, x: usize|
        #![trigger in_layer(m, l1, x), in_layer(m, l2, x)]
        in_layer(m, l1, x) && in_layer(m, l2, x) ==> l1 == l2
}

/// Whether `object` is in some layer of `m`.
pub open spec fn is_layered(m: Map<usize, Set<usize>>, object: usize) -> bool {
    exists|l: usize| in_layer(m, l, object)
}

/// Whether `s` is strictly increasing.
pub open spec fn strictly_increasing(s: Seq<usize>) -> bool {
    forall|i: int, j: int| 0 <= i < j < s.len() ==> s[i] < s[j]
}

/// The layers, each holding the numbers of its objects.
pub struct DrawLayers {
    layers: HashMap<usize, HashSet<usize>>,
}

impl View for DrawLayers {
    type V = Map<usize, Set<usize>>;

    closed spec fn view(&self) -> Map<usize, Set<usize>> {
        self.layers@.map_values(|s: HashSet<usize>| s@)
    }
}

/// The keys of a map, in the order in which the map hands them out.
fn map_keys(m: &HashMap<usize, HashSet<usize>>) -> (r: Vec<usize>)
    ensures
        r@.to_set() == m@.dom(),
        r@.no_duplicates(),
{
    let mut out: Vec<usize> = Vec::new();
    let ghost ks = vstd::std_specs::hash::spec_keys_iter(m).remaining().unref();
    proof {
        assert(ks.to_set() == m@.dom());
        assert(ks.no_duplicates());
    }
    for k in it: m.keys()
        invariant
            it.seq().unref() == ks,
            out@ == ks.take(it.index() as int),
    {
        out.push(*k);
    }
    assert(out@ =~= ks);
    out
}

/// The distinct values of `v`, in increasing order.
fn sort_unique(v: Vec<usize>) -> (r: Vec<usize>)
    requires
        v@.no_duplicates(),
    ensures
        r@.to_set() == v@.to_set(),
        strictly_increasing(r@),
{
    let mut out: Vec<usize> = Vec::new();
    let mut i: usize = 0;
    while i < v.len()
        invariant
            i <= v@.len(),
            v@.no_duplicates(),
            strictly_increasing(out@),
            out@.to_set() == v@.subrange(0, i as int).to_set(),
        decreases v@.len() - i,
    {
        let e = v[i];
        let mut p: usize = 0;
        while p < out.len() && out[p] < e
            invariant
                p <= out@.len(),
                forall|k: int| 0 <= k < p ==> out@[k] < e,
            decreases out@.len() - p,
        {
            p = p + 1;
        }
        proof {
            assert(!v@.subrange(0, i as int).contains(e)) by {
                if v@.subrange(0, i as int).contains(e) {
                    let k = choose|k: int| 0 <= k < i && v@.subrange(0, i as int)[k] == e;
                    assert(v@[k] == v@[i as int]);
                }
            }
            assert(!out@.contains(e)) by {
                if out@.contains(e) {
                    let k = choose|k: int| 0 <= k < out@.len() && out@[k] == e;
                    assert(out@.to_set().contains(e));
                }
            }
            if p < out@.len() {
                assert(out@[p as int] != e);
            }
        }
        let ghost before = out@;
        out.insert(p, e);
        proof {
            assert(out@ =~= before.insert(p as int, e));
            assert(v@.subrange(0, i + 1) =~= v@.subrange(0, i as int).push(e));
            v@.subrange(0, i as int).lemma_push_to_set_commute(e);
            assert(out@.to_set() =~= before.to_set().insert(e)) by {
                assert forall|x: usize| out@.to_set().contains(x) implies before.to_set().insert(e).contains(x) by {
                    let k = choose|k: int| 0 <= k < out@.len() && out@[k] == x;
                    if k < p {
                        assert(before[k] == x);
                    } else if k > p {
                        assert(before[k - 1] == x);
                    }
                }
                assert forall|x: usize| before.to_set().insert(e).contains(x) implies out@.to_set().contains(x) by {
                    if x == e {
                        assert(out@[p as int] == e);
                    } else {
                        let k = choose|k: int| 0 <= k < before.len() && before[k] == x;
                        if k < p {
                            assert(out@[k] == x);
                        } else {
                            assert(out@[k + 1] == x);
                        }
                    }
                }
            }
            assert forall|a: int, b: int| 0 <= a < b < out@.len() implies out@[a] < out@[b] by {
                if b < p {
                } else if b == p {
                } else if a < p {
                    assert(out@[b] == before[b - 1]);
                    if p < before.len() {
                        assert(before[p as int] >= e);
                        if b - 1 > p {
                            assert(before[p as int] < before[b - 1]);
                        }
                    }
                } else if a == p {
                    assert(out@[b] == before[b - 1]);
                    assert(before[p as int] >= e);
                    assert(before[p as int] != e);
                    if b - 1 > p {
                        assert(before[p as int] < before[b - 1]);
                    }
                } else {
                    assert(out@[a] == before[a - 1]);
                    assert(out@[b] == before[b - 1]);
                }
            }
        }
        i = i + 1;
    }
    assert(v@.subrange(0, v@.len() as int) =~= v@);
    out
}

/// The numbers of the objects in `objects`.
pub open spec fn object_numbers(objects: Seq<ObjectId>) -> Seq<usize> {
    objects.map_values(|o: ObjectId| o.0)
}

impl DrawLayers {
    pub closed spec fn well_formed(&self) -> bool {
        layers_disjoint(self@)
    }

    /// In well-formed layers no object is in two layers.
    pub proof fn lemma_well_formed_disjoint(&self)
        requires
            self.well_formed(),
        ensures
            layers_disjoint(self@),
    {
    }

    pub fn new() -> (r: DrawLayers)
        ensures
            r@ == Map::<usize, Set<usize>>::empty(),
            r.well_formed(),
    {
        let r = DrawLayers { layers: HashMap::new() };
        assert(r@ =~= Map::<usize, Set<usize>>::empty());
        r
    }

    /// The layer that holds `object`, if any.
    fn layer_of(&self, object: usize) -> (r: Option<usize>)
        ensures
            (match r {
                Some(l) => in_layer(self@, l, object),
                None => !is_layered(self@, object),
            }),
    {
        let keys = map_keys(&self.layers);
        let mut i: usize = 0;
        while i < keys.len()
            invariant
                i <= keys@.len(),
                keys@.to_set() == self.layers@.dom(),
                forall|k: int| 0 <= k < i ==> !in_layer(self@, #[trigger] keys@[k], object),
            decreases keys@.len() - i,
        {
            let k = keys[i];
            let holds = match self.layers.get(&k) {
                Some(set) => set.contains(&object),
                None => false,
            };
            if holds {
                return Some(k);
            }
            i = i + 1;
        }
        proof {
            if is_layered(self@, object) {
                let l = choose|l: usize| in_layer(self@, l, object);
                assert(keys@.to_set().contains(l));
                let k = choose|k: int| 0 <= k < keys@.len() && keys@[k] == l;
                assert(!in_layer(self@, keys@[k], object));
            }
        }
        None
    }

    /// Takes the set of layer `key` out of the map.
    fn take_layer(&mut self, key: usize) -> (r: Option<HashSet<usize>>)
        ensures
            (match r {
                Some(set) => old(self)@.contains_key(key) && set@ == old(self)@[key]
                    && final(self)@ == old(self)@.remove(key),
                None => !old(self)@.contains_key(key) && final(self)@ == old(self)@,
            }),
    {
        let r = self.layers.remove(&key);
        proof {
            assert(self@ =~= old(self)@.remove(key));
        }
        r
    }

    /// Makes `set` the set of layer `key`.
    fn put_layer(&mut self, key: usize, set: HashSet<usize>)
        ensures
            final(self)@ == old(self)@.insert(key, set@),
    {
        let ghost s = set@;
        self.layers.insert(key, set);
        proof {
            assert(self@ =~= old(self)@.insert(key, s));
        }
    }

    /// Puts `object` in layer `layer`, taking it out of the layer it was in.
    pub fn set_layer(&mut self, object: ObjectId, layer: usize)
        requires
            old(self).well_formed(),
        ensures
            final(self).well_formed(),
            final(self)@.dom() == old(self)@.dom().insert(layer),
            forall|l: usize, x: usize|
                #[trigger] in_layer(final(self)@, l, x) == if x == object.0 {
                    l == layer
                } else {
                    in_layer(old(self)@, l, x)
                },
    {
        let o = object.0;
        let ghost start = self@;
        if let Some(current) = self.layer_of(o) {
            if current == layer {
                assert(start.dom().insert(layer) =~= start.dom());
                return;
            }
            let mut set = self.take_layer(current).unwrap();
            set.remove(&o);
            self.put_layer(current, set);
        }
        let ghost middle = self@;
        assert forall|l: usize, x: usize| #[trigger] in_layer(middle, l, x) == (x != o && in_layer(start, l, x)) by {
            if in_layer(start, l, x) && x == o {
                let current = choose|c: usize| in_layer(start, c, o);
                assert(in_layer(start, current, o));
            }
        }
        assert(middle.dom() =~= start.dom());
        match self.take_layer(layer) {
            Some(mut set) => {
                set.insert(o);
                self.put_layer(layer, set);
            },
            None => {
                let mut set: HashSet<usize> = HashSet::new();
                set.insert(o);
                self.put_layer(layer, set);
            },
        }
        assert(self@.dom() =~= start.dom().insert(layer));
        assert(self@ == middle.insert(
            layer,
            if middle.contains_key(layer) {
                middle[layer].insert(o)
            } else {
                Set::empty().insert(o)
            },
        ));
        assert forall|l: usize, x: usize| #[trigger] in_layer(self@, l, x) == if x == o {
            l == layer
        } else {
            in_layer(start, l, x)
        } by {
            assert(in_layer(middle, l, x) == (x != o && in_layer(start, l, x)));
            if l != layer {
                assert(in_layer(self@, l, x) == in_layer(middle, l, x));
            } else if x != o {
                assert(in_layer(self@, l, x) == in_layer(middle, l, x));
            }
        }
        assert forall|l1: usize, l2: usize, x: usize|
            in_layer(self@, l1, x) && in_layer(self@, l2, x) implies l1 == l2 by {
            if x != o {
                assert(in_layer(start, l1, x) && in_layer(start, l2, x));
            }
        }
    }

    /// Takes `object` out of its layer, if it has one.
    pub fn remove(&mut self, object: ObjectId)
        requires
            old(self).well_formed(),
        ensures
            final(self).well_formed(),
            final(self)@.dom() == old(self)@.dom(),
            forall|l: usize, x: usize|
                #[trigger] in_layer(final(self)@, l, x) == (x != object.0 && in_layer(
                    old(self)@,
                    l,
                    x,
                )),
    {
        let o = object.0;
        let ghost start = self@;
        if let Some(current) = self.layer_of(o) {
            let mut set = self.take_layer(current).unwrap();
            set.remove(&o);
            self.put_layer(current, set);
        }
        assert forall|l: usize, x: usize| #[trigger] in_layer(self@, l, x) == (x != o && in_layer(start, l, x)) by {
            if in_layer(start, l, x) && x == o {
                let current = choose|c: usize| in_layer(start, c, o);
                assert(in_layer(start, current, o));
            }
        }
        assert(self@.dom() =~= start.dom());
    }

    /// Every object, once each, lower layers first.
    pub fn iter_ordered(&self) -> (r: Vec<ObjectId>)
        requires
            self.well_formed(),
        ensures
            object_numbers(r@).no_duplicates(),
            forall|x: usize| object_numbers(r@).contains(x) <==> is_layered(self@, x),
            forall|i: int, j: int, l1: usize, l2: usize|
                #![trigger in_layer(self@, l1, r@[i].0), in_layer(self@, l2, r@[j].0)]
                0 <= i < j < r@.len() && in_layer(self@, l1, r@[i].0) && in_layer(self@, l2, r@[j].0)
                    ==> l1 <= l2,
    {
        let keys = sort_unique(map_keys(&self.layers));
        let mut out: Vec<ObjectId> = Vec::new();
        let ghost mut lay: Seq<usize> = Seq::empty();
        let mut ki: usize = 0;
        while ki < keys.len()
            invariant
                ki <= keys@.len(),
                strictly_increasing(keys@),
                keys@.to_set() == self@.dom(),
                layers_disjoint(self@),
                lay.len() == out@.len(),
                forall|i: int| 0 <= i < out@.len() ==> in_layer(self@, lay[i], #[trigger] out@[i].0),
                forall|i: int| 0 <= i < out@.len() && ki < keys@.len() ==> lay[i] < keys@[ki as int],
                forall|i: int, j: int| 0 <= i <= j < lay.len() ==> lay[i] <= lay[j],
                object_numbers(out@).no_duplicates(),
                forall|k: int, x: usize|
                    0 <= k < ki && in_layer(self@, keys@[k], x) ==> object_numbers(out@).contains(x),
            decreases keys@.len() - ki,
        {
            let k = keys[ki];
            proof {
                assert(keys@.to_set().contains(k));
            }
            let set = self.layers.get(&k).unwrap();
            let ghost out0 = out@;
            let ghost lay0 = lay;
            let ghost ss = vstd::std_specs::hash::spec_hash_keys_iter(set).remaining().unref();
            proof {
                assert(ss.to_set() == set@);
                assert(ss.no_duplicates());
                assert(set@ == self@[k]);
            }
            for xr in it: set.iter()
                invariant
                    it.seq().unref() == ss,
                    ss.to_set() == self@[k],
                    ss.no_duplicates(),
                    self@.contains_key(k),
                    ki < keys@.len(),
                    k == keys@[ki as int],
                    strictly_increasing(keys@),
                    layers_disjoint(self@),
                    lay0.len() == out0.len(),
                    forall|i: int| 0 <= i < out0.len() ==> in_layer(self@, lay0[i], #[trigger] out0[i].0),
                    forall|i: int| 0 <= i < out0.len() ==> lay0[i] < k,
                    forall|i: int, j: int| 0 <= i <= j < lay0.len() ==> lay0[i] <= lay0[j],
                    object_numbers(out0).no_duplicates(),
                    object_numbers(out@) == object_numbers(out0) + ss.take(it.index() as int),
                    out@.len() == out0.len() + it.index(),
                    lay == lay0 + Seq::new(it.index() as nat, |_i: int| k),
            {
                let x = *xr;
                let ghost idx = it.index();
                proof {
                    assert(ss[idx] == x);
                    assert(self@[k].contains(x));
                    assert(!object_numbers(out@).contains(x)) by {
                        if object_numbers(out@).contains(x) {
                            let i = choose|i: int| 0 <= i < object_numbers(out@).len() && object_numbers(out@)[i] == x;
                            if i < out0.len() {
                                assert(object_numbers(out0)[i] == x);
                                assert(in_layer(self@, lay0[i], out0[i].0));
                                assert(in_layer(self@, k, x));
                            } else {
                                assert(ss.take(idx)[i - out0.len()] == x);
                                assert(ss[i - out0.len()] == ss[idx]);
                            }
                        }
                    }
                }
                let ghost before = out@;
                out.push(ObjectId(x));
                proof {
                    lay = lay.push(k);
                    assert(object_numbers(out@) =~= object_numbers(before).push(x));
                    assert(ss.take(idx + 1) =~= ss.take(idx).push(x));
                    assert(object_numbers(out@) =~= object_numbers(out0) + ss.take(idx + 1));
                    assert(lay =~= lay0 + Seq::new((idx + 1) as nat, |_i: int| k));
                }
            }
            proof {
                let n = ss.len();
                assert(ss.take(n as int) =~= ss);
                assert forall|i: int| 0 <= i < out@.len() implies in_layer(self@, lay[i], #[trigger] out@[i].0) by {
                    if i >= out0.len() {
                        assert(object_numbers(out@)[i] == ss[i - out0.len()]);
                        assert(ss.to_set().contains(ss[i - out0.len()]));
                    } else {
                        assert(out@[i] == out0[i]) by {
                            assert(object_numbers(out@)[i] == object_numbers(out0)[i]);
                        }
                    }
                }
                assert forall|kk: int, x: usize|
                    0 <= kk < ki + 1 && in_layer(self@, keys@[kk], x) implies object_numbers(out@).contains(x) by {
                    if kk < ki {
                        let i = choose|i: int| 0 <= i < object_numbers(out0).len() && object_numbers(out0)[i] == x;
                        assert(object_numbers(out@)[i] == x);
                    } else {
                        assert(ss.to_set().contains(x));
                        let i = choose|i: int| 0 <= i < ss.len() && ss[i] == x;
                        assert(object_numbers(out@)[out0.len() + i] == x);
                    }
                }
                assert forall|i: int| 0 <= i < out@.len() && ki + 1 < keys@.len() implies lay[i] < keys@[ki + 1] by {
                    assert(keys@[ki as int] < keys@[ki + 1]);
                }
            }
            ki = ki + 1;
        }
        proof {
            assert forall|x: usize| object_numbers(out@).contains(x) <==> is_layered(self@, x) by {
                if object_numbers(out@).contains(x) {
                    let i = choose|i: int| 0 <= i < object_numbers(out@).len() && object_numbers(out@)[i] == x;
                    assert(in_layer(self@, lay[i], out@[i].0));
                }
                if is_layered(self@, x) {
                    let l = choose|l: usize| in_layer(self@, l, x);
                    assert(keys@.to_set().contains(l));
                    let kk = choose|kk: int| 0 <= kk < keys@.len() && keys@[kk] == l;
                }
            }
            assert forall|i: int, j: int, l1: usize, l2: usize|
                #![trigger in_layer(self@, l1, out@[i].0), in_layer(self@, l2, out@[j].0)]
                0 <= i < j < out@.len() && in_layer(self@, l1, out@[i].0) && in_layer(self@, l2, out@[j].0)
                    implies l1 <= l2 by {
                assert(in_layer(self@, lay[i], out@[i].0));
                assert(in_layer(self@, lay[j], out@[j].0));
            }
        }
        out
    }
}

} // verus!
