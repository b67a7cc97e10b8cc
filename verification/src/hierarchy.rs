//! Which objects of the world belong to which: a parent link from each child
//! to each of its parents, kept in a `petgraph` stable graph, and the
//! listing and removal of everything below an object.

use std::collections::{HashMap, HashSet};

use petgraph::Directed;
use petgraph::Direction::Incoming;
use petgraph::stable_graph::{NodeIndex, StableGraph};

use vstd::prelude::*;

use crate::ids::ObjectId;

verus! {

broadcast use vstd::std_specs::hash::group_hash_axioms;

/// `petgraph`'s stable graph, seen from here only through `graph_nodes` and
/// `graph_incoming_lists`.
#[verifier::external_type_specification]
#[verifier::external_body]
#[verifier::reject_recursive_types(N)]
#[verifier::reject_recursive_types(E)]
#[verifier::reject_recursive_types(Ty)]
#[verifier::reject_recursive_types(Ix)]
pub struct ExStableGraph<N, E, Ty, Ix>(StableGraph<N, E, Ty, Ix>);

/// `petgraph`'s marker for graphs whose edges have a direction.
#[verifier::external_type_specification]
#[verifier::external_body]
pub struct ExDirected(Directed);

/// The nodes of the graph: each occupied node slot's index with its weight.
pub uninterp spec fn graph_nodes(g: StableGraph<usize, (), Directed, usize>) -> Map<usize, usize>;

/// For each node of the graph, its list of incoming edges read from the head
/// (the node's `next[1]` chain), each edge given by its source node.
pub uninterp spec fn graph_incoming_lists(g: StableGraph<usize, (), Directed, usize>) -> Map<usize, Seq<usize>>;

/// The list of `p` in `lists`, and the empty list for a key that is not there.
pub open spec fn kids_of(lists: Map<usize, Seq<usize>>, p: usize) -> Seq<usize> {
    if lists.dom().contains(p) {
        lists[p]
    } else {
        Seq::empty()
    }
}

/// How often `x` occurs in `s`.
pub open spec fn count_in(s: Seq<usize>, x: usize) -> nat
    decreases s.len(),
{
    if s.len() == 0 {
        0
    } else {
        count_in(s.drop_last(), x) + if s.last() == x {
            1nat
        } else {
            0nat
        }
    }
}

/// Whether a value is none of `removed`.
pub open spec fn not_in(removed: Seq<usize>) -> spec_fn(usize) -> bool {
    |x: usize| !removed.contains(x)
}

/// The lists without the keys in `removed`, and without `removed` in any list.
pub open spec fn prune(lists: Map<usize, Seq<usize>>, removed: Seq<usize>) -> Map<usize, Seq<usize>> {
    Map::new(
        |m: usize| lists.dom().contains(m) && !removed.contains(m),
        |m: usize| lists[m].filter(not_in(removed)),
    )
}

/// `StableGraph::default`: a graph with no nodes.
#[verifier::external_body]
fn graph_new() -> (r: StableGraph<usize, (), Directed, usize>)
    ensures
        graph_nodes(r).dom() == Set::<usize>::empty(),
        graph_incoming_lists(r).dom() == Set::<usize>::empty(),
{
    StableGraph::default()
}

/// `StableGraph::add_node`: the node gets an index that no present node has
/// (a vacated one or a fresh one) and starts with no edges. With `usize`
/// indices the graph has no node limit.
#[verifier::external_body]
fn graph_add_node(g: &mut StableGraph<usize, (), Directed, usize>, weight: usize) -> (r: usize)
    ensures
        !graph_nodes(*old(g)).dom().contains(r),
        graph_nodes(*final(g)) == graph_nodes(*old(g)).insert(r, weight),
        graph_incoming_lists(*final(g)) == graph_incoming_lists(*old(g)).insert(r, Seq::<usize>::empty()),
{
    g.add_node(weight).index()
}

/// `StableGraph::add_edge`: the new edge from `a` to `b` becomes the head of
/// `b`'s incoming list (parallel edges are allowed); it panics unless both
/// nodes are present.
#[verifier::external_body]
fn graph_add_edge(g: &mut StableGraph<usize, (), Directed, usize>, a: usize, b: usize)
    requires
        graph_nodes(*old(g)).dom().contains(a),
        graph_nodes(*old(g)).dom().contains(b),
    ensures
        graph_nodes(*final(g)) == graph_nodes(*old(g)),
        graph_incoming_lists(*final(g)) == graph_incoming_lists(*old(g)).insert(
            b,
            seq![a] + graph_incoming_lists(*old(g))[b],
        ),
{
    g.add_edge(NodeIndex::new(a), NodeIndex::new(b), ());
}

/// `StableGraph::edges_connecting(a, b).count()`: how many edges go from `a`
/// to `b`, which is how often `a` occurs in `b`'s incoming list.
#[verifier::external_body]
fn graph_edges_connecting_count(g: &StableGraph<usize, (), Directed, usize>, a: usize, b: usize) -> (r: usize)
    ensures
        r == count_in(kids_of(graph_incoming_lists(*g), b), a),
{
    g.edges_connecting(NodeIndex::new(a), NodeIndex::new(b)).count()
}

/// `StableGraph::neighbors_directed(n, Incoming)`, collected: `n`'s incoming
/// list from its head, each edge as its source; empty for an absent node.
#[verifier::external_body]
fn graph_incoming(g: &StableGraph<usize, (), Directed, usize>, n: usize) -> (r: Vec<usize>)
    ensures
        r@ == kids_of(graph_incoming_lists(*g), n),
{
    g.neighbors_directed(NodeIndex::new(n), Incoming).map(|i| i.index()).collect()
}

/// `StableGraph::node_weight`: the weight of a present node.
#[verifier::external_body]
fn graph_node_weight(g: &StableGraph<usize, (), Directed, usize>, n: usize) -> (r: Option<usize>)
    ensures
        r == if graph_nodes(*g).dom().contains(n) {
            Some(graph_nodes(*g)[n])
        } else {
            None
        },
{
    g.node_weight(NodeIndex::new(n)).copied()
}

/// `StableGraph::remove_node`: removes a present node with every edge from or
/// to it, so that it leaves every other node's incoming list, whose order
/// otherwise stays; returns its weight. An absent node leaves the graph as it is.
#[verifier::external_body]
fn graph_remove_node(g: &mut StableGraph<usize, (), Directed, usize>, n: usize) -> (r: Option<usize>)
    ensures
        graph_nodes(*old(g)).dom().contains(n) ==> r == Some(graph_nodes(*old(g))[n])
            && graph_nodes(*final(g)) == graph_nodes(*old(g)).remove(n) && graph_incoming_lists(*final(g))
            == prune(graph_incoming_lists(*old(g)), seq![n]),
        !graph_nodes(*old(g)).dom().contains(n) ==> r is None && graph_nodes(*final(g))
            == graph_nodes(*old(g)) && graph_incoming_lists(*final(g)) == graph_incoming_lists(*old(g)),
{
    g.remove_node(NodeIndex::new(n))
}

/// Everything listed below `p` in `lists`: the children of `p` (its list),
/// then, child by child, everything below that child; `fuel` bounds the depth.
pub open spec fn below(lists: Map<usize, Seq<usize>>, p: usize, fuel: nat) -> Seq<usize>
    decreases fuel, 0nat,
{
    if fuel == 0 {
        Seq::empty()
    } else {
        let cs = kids_of(lists, p);
        cs + below_all(lists, cs, (fuel - 1) as nat)
    }
}

/// What lies below each of `cs`, one after the other.
pub open spec fn below_all(lists: Map<usize, Seq<usize>>, cs: Seq<usize>, fuel: nat) -> Seq<usize>
    decreases fuel, cs.len() + 1,
{
    if cs.len() == 0 {
        Seq::empty()
    } else {
        below_all(lists, cs.drop_last(), fuel) + below(lists, cs.last(), fuel)
    }
}

/// `rank` puts every child strictly below the parent whose list holds it.
pub open spec fn ranked(lists: Map<usize, Seq<usize>>, rank: Map<usize, nat>) -> bool {
    forall|p: usize, i: int|
        lists.dom().contains(p) && 0 <= i < lists[p].len() ==> #[trigger] child_ranks_lower(lists, rank, p, i)
}

/// The `i`-th child of `p` ranks below `p`.
pub open spec fn child_ranks_lower(lists: Map<usize, Seq<usize>>, rank: Map<usize, nat>, p: usize, i: int) -> bool {
    rank.dom().contains(p) && rank.dom().contains(lists[p][i]) && rank[lists[p][i]] < rank[p]
}

/// The links form no cycle: the nodes can be ranked so that every child
/// ranks below each of its parents.
pub open spec fn acyclic(lists: Map<usize, Seq<usize>>) -> bool {
    exists|rank: Map<usize, nat>| ranked(lists, rank)
}

/// Every child is itself a key of `lists`.
pub open spec fn closed(lists: Map<usize, Seq<usize>>) -> bool {
    forall|p: usize, i: int|
        lists.dom().contains(p) && 0 <= i < lists[p].len() ==> lists.dom().contains(#[trigger] lists[p][i])
}

/// The rank of `n`, and 0 for a node without one.
pub open spec fn rank_of(rank: Map<usize, nat>, n: usize) -> nat {
    if rank.dom().contains(n) {
        rank[n]
    } else {
        0
    }
}

/// Any ranking of finitely many closed lists can be compacted so that no
/// rank exceeds the number of keys: rank each key by how many ranked keys
/// lie below it.
proof fn lemma_compact_ranking(lists: Map<usize, Seq<usize>>, rank: Map<usize, nat>)
    requires
        ranked(lists, rank),
        closed(lists),
        lists.dom().finite(),
    ensures
        exists|r: Map<usize, nat>|
            ranked(lists, r) && forall|v: usize| r.dom().contains(v) ==> #[trigger] r[v] <= lists.dom().len(),
{
    broadcast use vstd::set::group_set_axioms;

    let keys = lists.dom();
    let r = Map::new(
        |v: usize| rank.dom().contains(v),
        |v: usize| keys.filter(|u: usize| rank.dom().contains(u) && rank[u] < rank[v]).len(),
    );
    assert forall|p: usize, i: int| lists.dom().contains(p) && 0 <= i < lists[p].len() implies #[trigger] child_ranks_lower(lists, r, p, i) by {
        let c = lists[p][i];
        assert(child_ranks_lower(lists, rank, p, i));
        let below_c = keys.filter(|u: usize| rank.dom().contains(u) && rank[u] < rank[c]);
        let below_p = keys.filter(|u: usize| rank.dom().contains(u) && rank[u] < rank[p]);
        keys.lemma_len_filter(|u: usize| rank.dom().contains(u) && rank[u] < rank[p]);
        assert(keys.contains(c));
        assert(below_p.contains(c));
        assert(below_c.subset_of(below_p.remove(c)));
        vstd::set_lib::lemma_len_subset(below_c, below_p.remove(c));
    }
    assert forall|v: usize| r.dom().contains(v) implies #[trigger] r[v] <= lists.dom().len() by {
        keys.lemma_len_filter(|u: usize| rank.dom().contains(u) && rank[u] < rank[v]);
    }
    assert(ranked(lists, r));
}

/// Under a ranking, every child of `n` ranks below `n`.
proof fn lemma_child_ranks_lower(lists: Map<usize, Seq<usize>>, rank: Map<usize, nat>, n: usize, i: int)
    requires
        ranked(lists, rank),
        0 <= i < kids_of(lists, n).len(),
    ensures
        rank.dom().contains(kids_of(lists, n)[i]),
        rank.dom().contains(n),
        rank[kids_of(lists, n)[i]] < rank[n],
{
    assert(lists.dom().contains(n));
    assert(child_ranks_lower(lists, rank, n, i));
}

/// In closed lists, everything listed below a key is a key.
proof fn lemma_below_are_keys(lists: Map<usize, Seq<usize>>, n: usize, fuel: nat)
    requires
        closed(lists),
    ensures
        forall|i: int| 0 <= i < below(lists, n, fuel).len() ==> lists.dom().contains(#[trigger] below(lists, n, fuel)[i]),
    decreases fuel, 0nat,
{
    if fuel > 0 {
        let cs = kids_of(lists, n);
        assert forall|i: int| 0 <= i < cs.len() implies lists.dom().contains(#[trigger] cs[i]) by {
            assert(lists.dom().contains(lists[n][i]));
        }
        lemma_below_all_are_keys(lists, cs, (fuel - 1) as nat);
        let r = below(lists, n, fuel);
        let rest = below_all(lists, cs, (fuel - 1) as nat);
        assert forall|i: int| 0 <= i < r.len() implies lists.dom().contains(#[trigger] r[i]) by {
            if i < cs.len() {
                assert(r[i] == cs[i]);
            } else {
                assert(r[i] == rest[i - cs.len()]);
            }
        }
    }
}

proof fn lemma_below_all_are_keys(lists: Map<usize, Seq<usize>>, cs: Seq<usize>, fuel: nat)
    requires
        closed(lists),
    ensures
        forall|i: int| 0 <= i < below_all(lists, cs, fuel).len() ==> lists.dom().contains(
            #[trigger] below_all(lists, cs, fuel)[i],
        ),
    decreases fuel, cs.len() + 1,
{
    if cs.len() > 0 {
        lemma_below_all_are_keys(lists, cs.drop_last(), fuel);
        lemma_below_are_keys(lists, cs.last(), fuel);
        let a = below_all(lists, cs.drop_last(), fuel);
        let b = below(lists, cs.last(), fuel);
        let r = below_all(lists, cs, fuel);
        assert forall|i: int| 0 <= i < r.len() implies lists.dom().contains(#[trigger] r[i]) by {
            if i < a.len() {
                assert(r[i] == a[i]);
            } else {
                assert(r[i] == b[i - a.len()]);
            }
        }
    }
}

/// `objs` is `lists` with every node renamed by the one-to-one `h`: the list
/// of `h[n]` is the list of `n`, renamed.
pub open spec fn renames(objs: Map<usize, Seq<usize>>, lists: Map<usize, Seq<usize>>, h: Map<usize, usize>) -> bool {
    &&& closed(lists)
    &&& forall|n: usize| #[trigger] lists.dom().contains(n) ==> h.dom().contains(n)
    &&& forall|x: usize, y: usize| h.dom().contains(x) && h.dom().contains(y) && #[trigger] h[x] == #[trigger] h[y] ==> x == y
    &&& forall|n: usize| #[trigger] lists.dom().contains(n) ==> objs.dom().contains(h[n]) && objs[h[n]] == lists[n].map_values(|x: usize| h[x])
}

/// Renaming commutes with listing everything below a node.
proof fn lemma_rename_below(objs: Map<usize, Seq<usize>>, lists: Map<usize, Seq<usize>>, h: Map<usize, usize>, n: usize, fuel: nat)
    requires
        renames(objs, lists, h),
        lists.dom().contains(n),
    ensures
        below(objs, h[n], fuel) == below(lists, n, fuel).map_values(|x: usize| h[x]),
    decreases fuel, 0nat,
{
    if fuel > 0 {
        let cs = kids_of(lists, n);
        assert(kids_of(objs, h[n]) == cs.map_values(|x: usize| h[x]));
        assert forall|i: int| 0 <= i < cs.len() implies lists.dom().contains(#[trigger] cs[i]) by {
            assert(lists.dom().contains(lists[n][i]));
        }
        lemma_rename_below_all(objs, lists, h, cs, (fuel - 1) as nat);
        assert((cs + below_all(lists, cs, (fuel - 1) as nat)).map_values(|x: usize| h[x]) =~= cs.map_values(
            |x: usize| h[x],
        ) + below_all(lists, cs, (fuel - 1) as nat).map_values(|x: usize| h[x]));
    } else {
        assert(below(lists, n, fuel).map_values(|x: usize| h[x]) =~= Seq::empty());
    }
}

proof fn lemma_rename_below_all(
    objs: Map<usize, Seq<usize>>,
    lists: Map<usize, Seq<usize>>,
    h: Map<usize, usize>,
    cs: Seq<usize>,
    fuel: nat,
)
    requires
        renames(objs, lists, h),
        forall|i: int| 0 <= i < cs.len() ==> lists.dom().contains(#[trigger] cs[i]),
    ensures
        below_all(objs, cs.map_values(|x: usize| h[x]), fuel) == below_all(lists, cs, fuel).map_values(
            |x: usize| h[x],
        ),
    decreases fuel, cs.len() + 1,
{
    let hs = cs.map_values(|x: usize| h[x]);
    if cs.len() == 0 {
        assert(below_all(lists, cs, fuel).map_values(|x: usize| h[x]) =~= Seq::empty());
    } else {
        assert(hs.drop_last() =~= cs.drop_last().map_values(|x: usize| h[x]));
        assert(hs.last() == h[cs.last()]);
        lemma_rename_below_all(objs, lists, h, cs.drop_last(), fuel);
        lemma_rename_below(objs, lists, h, cs.last(), fuel);
        assert((below_all(lists, cs.drop_last(), fuel) + below(lists, cs.last(), fuel)).map_values(
            |x: usize| h[x],
        ) =~= below_all(lists, cs.drop_last(), fuel).map_values(|x: usize| h[x]) + below(
            lists,
            cs.last(),
            fuel,
        ).map_values(|x: usize| h[x]));
    }
}

/// Under a ranking, everything below `n` ranks below `n`.
proof fn lemma_below_ranks_lower(lists: Map<usize, Seq<usize>>, rank: Map<usize, nat>, n: usize, fuel: nat)
    requires
        ranked(lists, rank),
    ensures
        forall|i: int| 0 <= i < below(lists, n, fuel).len() ==> rank.dom().contains(n) && rank.dom().contains(
            #[trigger] below(lists, n, fuel)[i],
        ) && rank[below(lists, n, fuel)[i]] < rank[n],
    decreases fuel, 0nat,
{
    if fuel > 0 {
        let cs = kids_of(lists, n);
        if cs.len() > 0 {
            lemma_child_ranks_lower(lists, rank, n, 0);
            assert forall|i: int| 0 <= i < cs.len() implies rank.dom().contains(#[trigger] cs[i]) && rank[cs[i]] < rank[n] by {
                lemma_child_ranks_lower(lists, rank, n, i);
            }
            lemma_below_all_ranks_lower(lists, rank, cs, (fuel - 1) as nat, rank[n]);
        }
        let r = below(lists, n, fuel);
        let rest = below_all(lists, cs, (fuel - 1) as nat);
        assert forall|i: int| 0 <= i < r.len() implies rank.dom().contains(n) && rank.dom().contains(#[trigger] r[i]) && rank[r[i]] < rank[n] by {
            if i < cs.len() {
                assert(r[i] == cs[i]);
            } else {
                assert(r[i] == rest[i - cs.len()]);
            }
        }
    }
}

proof fn lemma_below_all_ranks_lower(
    lists: Map<usize, Seq<usize>>,
    rank: Map<usize, nat>,
    cs: Seq<usize>,
    fuel: nat,
    bound: nat,
)
    requires
        ranked(lists, rank),
        forall|i: int| 0 <= i < cs.len() ==> rank.dom().contains(#[trigger] cs[i]) && rank[cs[i]] < bound,
    ensures
        forall|i: int| 0 <= i < below_all(lists, cs, fuel).len() ==> rank.dom().contains(
            #[trigger] below_all(lists, cs, fuel)[i],
        ) && rank[below_all(lists, cs, fuel)[i]] < bound,
    decreases fuel, cs.len() + 1,
{
    if cs.len() > 0 {
        let a = below_all(lists, cs.drop_last(), fuel);
        let b = below(lists, cs.last(), fuel);
        lemma_below_all_ranks_lower(lists, rank, cs.drop_last(), fuel, bound);
        lemma_below_ranks_lower(lists, rank, cs.last(), fuel);
        assert(rank[cs.last()] < bound) by {
            assert(cs.last() == cs[cs.len() - 1]);
        }
        let r = below_all(lists, cs, fuel);
        assert forall|i: int| 0 <= i < r.len() implies rank.dom().contains(#[trigger] r[i]) && rank[r[i]] < bound by {
            if i < a.len() {
                assert(r[i] == a[i]);
            } else {
                assert(r[i] == b[i - a.len()]);
            }
        }
    }
}

/// Where the links form no cycle, nothing is listed below itself: removing
/// everything below an object keeps the object.
pub proof fn lemma_not_below_itself(lists: Map<usize, Seq<usize>>, p: usize, fuel: nat)
    requires
        acyclic(lists),
    ensures
        !below(lists, p, fuel).contains(p),
{
    let rank = choose|rank: Map<usize, nat>| ranked(lists, rank);
    lemma_below_ranks_lower(lists, rank, p, fuel);
    if below(lists, p, fuel).contains(p) {
        let i = choose|i: int| 0 <= i < below(lists, p, fuel).len() && below(lists, p, fuel)[i] == p;
        assert(rank[below(lists, p, fuel)[i]] < rank[p]);
    }
}

/// The child put at the head of `p`'s list is the first object listed below `p`.
pub proof fn lemma_newest_child_first(lists: Map<usize, Seq<usize>>, c: usize, p: usize, fuel: nat)
    requires
        fuel > 0,
    ensures
        below(lists.insert(p, seq![c] + kids_of(lists, p)), p, fuel).len() > 0,
        below(lists.insert(p, seq![c] + kids_of(lists, p)), p, fuel)[0] == c,
{
    let grown = lists.insert(p, seq![c] + kids_of(lists, p));
    assert(kids_of(grown, p)[0] == c);
    assert(below(grown, p, fuel)[0] == kids_of(grown, p)[0]);
}

/// Removing objects, and every mention of them, keeps the links free of cycles.
pub proof fn lemma_prune_keeps_acyclic(lists: Map<usize, Seq<usize>>, removed: Seq<usize>)
    requires
        acyclic(lists),
    ensures
        acyclic(prune(lists, removed)),
{
    let rank = choose|rank: Map<usize, nat>| ranked(lists, rank);
    let kept = prune(lists, removed);
    assert forall|p: usize, i: int| kept.dom().contains(p) && 0 <= i < kept[p].len() implies #[trigger] child_ranks_lower(kept, rank, p, i) by {
        let s = lists[p];
        assert(kept[p] == s.filter(not_in(removed)));
        assert(kept[p].contains(kept[p][i]));
        s.lemma_filter_contains_rev(not_in(removed), kept[p][i]);
        let j = choose|j: int| 0 <= j < s.len() && s[j] == kept[p][i];
        assert(child_ranks_lower(lists, rank, p, j));
    }
    assert(ranked(kept, rank));
}

/// The lists with `o` added, without children, unless it is there already.
pub open spec fn with_object(lists: Map<usize, Seq<usize>>, o: usize) -> Map<usize, Seq<usize>> {
    if lists.dom().contains(o) {
        lists
    } else {
        lists.insert(o, Seq::empty())
    }
}

/// The lists once `c` is made a child of `p`: both are added when missing,
/// and `c` goes to the head of `p`'s list.
pub open spec fn linked(lists: Map<usize, Seq<usize>>, c: usize, p: usize) -> Map<usize, Seq<usize>> {
    let both = with_object(with_object(lists, c), p);
    both.insert(p, seq![c] + both[p])
}

/// Linking an object that is in no list yet, as a child of another object,
/// keeps the links free of cycles.
pub proof fn lemma_fresh_child_keeps_acyclic(lists: Map<usize, Seq<usize>>, c: usize, p: usize)
    requires
        acyclic(lists),
        c != p,
        forall|q: usize, i: int| lists.dom().contains(q) && 0 <= i < lists[q].len() ==> #[trigger] lists[q][i] != c,
        !lists.dom().contains(c) || lists[c].len() == 0,
    ensures
        acyclic(linked(lists, c, p)),
{
    let rank = choose|rank: Map<usize, nat>| ranked(lists, rank);
    let shifted = Map::new(
        |v: usize| v == c || v == p || rank.dom().contains(v),
        |v: usize| if v == c { 0nat } else if rank.dom().contains(v) { rank[v] + 1 } else { 1nat },
    );
    let grown = linked(lists, c, p);
    let both = with_object(with_object(lists, c), p);
    assert forall|q: usize, i: int| grown.dom().contains(q) && 0 <= i < grown[q].len() implies #[trigger] child_ranks_lower(grown, shifted, q, i) by {
        if q == p {
            if i == 0 {
                assert(grown[q][i] == c);
            } else {
                assert(grown[q][i] == both[p][i - 1]);
                if lists.dom().contains(p) {
                    assert(both[p] == lists[p]);
                    assert(child_ranks_lower(lists, rank, p, i - 1));
                    assert(lists[p][i - 1] != c);
                } else if p != c {
                    assert(both[p].len() == 0);
                }
            }
        } else {
            if q == c {
                assert(grown[q].len() == 0);
            } else {
                assert(grown[q] == lists[q]);
                assert(child_ranks_lower(lists, rank, q, i));
                assert(lists[q][i] != c);
            }
        }
    }
    assert(ranked(grown, shifted));
}

/// `s` with every node renamed by `h`.
pub open spec fn rename(s: Seq<usize>, h: Map<usize, usize>) -> Seq<usize> {
    s.map_values(|x: usize| h[x])
}

/// `x` occurs in `s` exactly when it occurs there at least once.
proof fn lemma_count_in_contains(s: Seq<usize>, x: usize)
    ensures
        (count_in(s, x) > 0) == s.contains(x),
    decreases s.len(),
{
    if s.len() > 0 {
        lemma_count_in_contains(s.drop_last(), x);
        if s.drop_last().contains(x) {
            let j = choose|j: int| 0 <= j < s.drop_last().len() && s.drop_last()[j] == x;
            assert(s[j] == x);
        }
        if s.contains(x) && s.last() != x {
            let j = choose|j: int| 0 <= j < s.len() && s[j] == x;
            assert(s.drop_last()[j] == x);
        }
    }
}

/// Filtering and then renaming is renaming and then filtering by the matching test.
proof fn lemma_filter_map_commute(s: Seq<usize>, p: spec_fn(usize) -> bool, q: spec_fn(usize) -> bool, h: Map<usize, usize>)
    requires
        forall|k: int| 0 <= k < s.len() ==> p(#[trigger] s[k]) == q(h[s[k]]),
    ensures
        rename(s.filter(p), h) == rename(s, h).filter(q),
    decreases s.len(),
{
    reveal(Seq::filter);
    if s.len() == 0 {
        assert(rename(s.filter(p), h) =~= rename(s, h).filter(q));
    } else {
        let t = s.drop_last();
        let x = s.last();
        assert(s =~= t.push(x));
        lemma_filter_map_commute(t, p, q, h);
        t.lemma_filter_push(x, p);
        assert(rename(s, h) =~= rename(t, h).push(h[x]));
        rename(t, h).lemma_filter_push(h[x], q);
        assert(p(x) == q(h[x])) by {
            assert(s[s.len() - 1] == x);
        }
        if p(x) {
            assert(rename(t.filter(p).push(x), h) =~= rename(t.filter(p), h).push(h[x]));
        }
    }
}

/// Filtering twice is filtering once by both tests.
proof fn lemma_filter_twice(s: Seq<usize>, p: spec_fn(usize) -> bool, q: spec_fn(usize) -> bool)
    ensures
        s.filter(p).filter(q) == s.filter(|x: usize| p(x) && q(x)),
    decreases s.len(),
{
    reveal(Seq::filter);
    let pq = |x: usize| p(x) && q(x);
    if s.len() == 0 {
        assert(s.filter(p).filter(q) =~= s.filter(pq));
    } else {
        let t = s.drop_last();
        let x = s.last();
        assert(s =~= t.push(x));
        lemma_filter_twice(t, p, q);
        t.lemma_filter_push(x, p);
        t.lemma_filter_push(x, pq);
        if p(x) {
            t.filter(p).lemma_filter_push(x, q);
        }
    }
}

/// Filtering by a test that every element passes keeps everything.
proof fn lemma_filter_keeps_all(s: Seq<usize>, p: spec_fn(usize) -> bool)
    requires
        forall|k: int| 0 <= k < s.len() ==> p(#[trigger] s[k]),
    ensures
        s.filter(p) == s,
    decreases s.len(),
{
    reveal(Seq::filter);
    if s.len() > 0 {
        lemma_filter_keeps_all(s.drop_last(), p);
        assert(s.drop_last().push(s.last()) =~= s);
    }
}

/// Pruning one more node is pruning the longer list of nodes.
proof fn lemma_prune_step(lists: Map<usize, Seq<usize>>, done: Seq<usize>, x: usize)
    ensures
        prune(prune(lists, done), seq![x]) == prune(lists, done.push(x)),
{
    let next = done.push(x);
    assert forall|y: usize| #[trigger] next.contains(y) == (done.contains(y) || y == x) by {
        if next.contains(y) && y != x {
            let j = choose|j: int| 0 <= j < next.len() && next[j] == y;
            assert(done[j] == y);
        }
        if done.contains(y) {
            let j = choose|j: int| 0 <= j < done.len() && done[j] == y;
            assert(next[j] == y);
        }
        if y == x {
            assert(next[done.len() as int] == x);
        }
    }
    assert forall|y: usize| #[trigger] seq![x].contains(y) == (y == x) by {
        if y == x {
            assert(seq![x][0] == x);
        }
    }
    let a = prune(prune(lists, done), seq![x]);
    let b = prune(lists, next);
    assert forall|m: usize| a.dom().contains(m) implies #[trigger] a[m] == b[m] by {
        lemma_filter_twice(lists[m], not_in(done), not_in(seq![x]));
        assert((|y: usize| not_in(done)(y) && not_in(seq![x])(y)) =~= not_in(next));
    }
    assert(a =~= b);
}

/// Pruning nothing changes nothing.
proof fn lemma_prune_nothing(lists: Map<usize, Seq<usize>>)
    ensures
        prune(lists, Seq::empty()) == lists,
{
    let a = prune(lists, Seq::empty());
    assert forall|m: usize| a.dom().contains(m) implies #[trigger] a[m] == lists[m] by {
        lemma_filter_keeps_all(lists[m], not_in(Seq::empty()));
    }
    assert(a =~= lists);
}

/// Why a parent link was refused.
#[derive(Clone, Copy, Debug, PartialEq, Eq, Structural)]
pub enum ParentError {
    /// The child already has that parent.
    AlreadyParented,
    /// The parent is already a child of the child.
    ChildToParent,
}

/// Whether `c` is in the list of `p`.
pub open spec fn has_child(lists: Map<usize, Seq<usize>>, p: usize, c: usize) -> bool {
    lists.dom().contains(p) && lists[p].contains(c)
}

/// Parent links between the objects of the world.
pub struct Hierarchy {
    /// The graph node of each object, by object number.
    indices: HashMap<usize, usize>,
    /// The node of every object that entered the hierarchy without a parent.
    roots: HashSet<usize>,
    /// One node per object, weighted by its number, and an edge from each
    /// child to each of its parents.
    graph: StableGraph<usize, (), Directed, usize>,
}

impl Hierarchy {
    /// The object numbers and the graph's nodes name each other one to one,
    /// every node has an incoming list, and every edge comes from a present node.
    pub closed spec fn well_formed(&self) -> bool {
        &&& forall|o: usize| #[trigger] self.indices@.dom().contains(o) ==> graph_nodes(self.graph).dom().contains(self.indices@[o]) && graph_nodes(self.graph)[self.indices@[o]] == o
        &&& forall|n: usize| #[trigger] graph_nodes(self.graph).dom().contains(n) ==> self.indices@.dom().contains(graph_nodes(self.graph)[n]) && self.indices@[graph_nodes(self.graph)[n]] == n
        &&& graph_incoming_lists(self.graph).dom() == graph_nodes(self.graph).dom()
        &&& closed(graph_incoming_lists(self.graph))
    }

    /// The numbers of the objects in the hierarchy.
    pub closed spec fn objects(&self) -> Set<usize> {
        self.indices@.dom()
    }

    /// For each object, its children, the child of the most recent link first.
    pub closed spec fn child_lists(&self) -> Map<usize, Seq<usize>> {
        Map::new(
            |o: usize| self.indices@.dom().contains(o),
            |o: usize| rename(graph_incoming_lists(self.graph)[self.indices@[o]], graph_nodes(self.graph)),
        )
    }

    /// The child lists are the graph's incoming lists, renamed from nodes to objects.
    proof fn lemma_renames(&self)
        requires
            self.well_formed(),
        ensures
            renames(self.child_lists(), graph_incoming_lists(self.graph), graph_nodes(self.graph)),
    {
        let h = graph_nodes(self.graph);
        let lists = graph_incoming_lists(self.graph);
        assert forall|x: usize, y: usize| h.dom().contains(x) && h.dom().contains(y) && #[trigger] h[x] == #[trigger] h[y] implies x == y by {
            assert(self.indices@[h[x]] == x);
        }
        assert forall|n: usize| #[trigger] lists.dom().contains(n) implies self.child_lists().dom().contains(h[n])
            && self.child_lists()[h[n]] == rename(lists[n], h) by {
            assert(h.dom().contains(n));
        }
    }

    /// Every child is an object of the hierarchy, and every object has a list.
    pub proof fn lemma_children_are_objects(&self)
        requires
            self.well_formed(),
        ensures
            self.child_lists().dom() == self.objects(),
            closed(self.child_lists()),
    {
        let k = self.child_lists();
        let h = graph_nodes(self.graph);
        let lists = graph_incoming_lists(self.graph);
        assert forall|o: usize, i: int| k.dom().contains(o) && 0 <= i < k[o].len() implies k.dom().contains(#[trigger] k[o][i]) by {
            let n = self.indices@[o];
            assert(h.dom().contains(n));
            assert(lists.dom().contains(lists[n][i]));
            assert(self.indices@.dom().contains(h[lists[n][i]]));
        }
        assert(k.dom() =~= self.objects());
    }

    /// An empty hierarchy.
    pub fn new() -> (r: Hierarchy)
        ensures
            r.well_formed(),
            r.objects() == Set::<usize>::empty(),
            r.child_lists() == Map::<usize, Seq<usize>>::empty(),
    {
        let r = Hierarchy { indices: HashMap::new(), roots: HashSet::new(), graph: graph_new() };
        assert(r.objects() =~= Set::<usize>::empty());
        assert(r.child_lists() =~= Map::<usize, Seq<usize>>::empty());
        r
    }

    /// Adds `object` without a parent, unless it is there already.
    #[verifier::spinoff_prover]
    fn insert_root(&mut self, object: ObjectId) -> (r: Option<usize>)
        requires
            old(self).well_formed(),
        ensures
            final(self).well_formed(),
            final(self).objects() == old(self).objects().insert(object.0),
            final(self).child_lists() == with_object(old(self).child_lists(), object.0),
            forall|o: usize| #[trigger] old(self).indices@.dom().contains(o) ==> final(self).indices@[o] == old(self).indices@[o],
            old(self).objects().contains(object.0) ==> r is None && *final(self) == *old(self),
            !old(self).objects().contains(object.0) ==> r == Some(final(self).indices@[object.0]),
    {
        if self.indices.contains_key(&object.0) {
            assert(self.objects().insert(object.0) =~= self.objects());
            return None;
        }
        let ghost before = *self;
        let index = graph_add_node(&mut self.graph, object.0);
        self.indices.insert(object.0, index);
        self.roots.insert(index);
        proof {
            let h0 = graph_nodes(before.graph);
            let h1 = graph_nodes(self.graph);
            let l0 = graph_incoming_lists(before.graph);
            let l1 = graph_incoming_lists(self.graph);
            assert forall|o: usize| #[trigger] self.indices@.dom().contains(o) implies h1.dom().contains(self.indices@[o]) && h1[self.indices@[o]] == o by {
                if o != object.0 {
                    assert(before.indices@.dom().contains(o));
                    assert(h0.dom().contains(before.indices@[o]));
                }
            }
            assert forall|n: usize| #[trigger] h1.dom().contains(n) implies self.indices@.dom().contains(h1[n]) && self.indices@[h1[n]] == n by {
                if n != index {
                    assert(h0.dom().contains(n));
                    assert(before.indices@.dom().contains(h0[n]));
                    if h0[n] == object.0 {
                        assert(before.indices@.dom().contains(object.0));
                    }
                }
            }
            assert(l1.dom() =~= h1.dom());
            assert forall|p: usize, i: int| l1.dom().contains(p) && 0 <= i < l1[p].len() implies l1.dom().contains(#[trigger] l1[p][i]) by {
                assert(p != index);
                assert(l0.dom().contains(l0[p][i]));
            }
            let k0 = before.child_lists();
            let k1 = self.child_lists();
            let want = with_object(k0, object.0);
            assert forall|o: usize| k1.dom().contains(o) implies #[trigger] k1[o] == want[o] by {
                if o != object.0 {
                    let n = before.indices@[o];
                    assert(h0.dom().contains(n));
                    assert(n != index);
                    assert forall|i: int| 0 <= i < l0[n].len() implies h1[#[trigger] l0[n][i]] == h0[l0[n][i]] by {
                        assert(l0.dom().contains(l0[n][i]));
                    }
                    assert(rename(l1[n], h1) =~= rename(l0[n], h0));
                } else {
                    assert(rename(l1[index], h1) =~= Seq::<usize>::empty());
                }
            }
            assert(k1 =~= want);
            assert(self.objects() =~= before.objects().insert(object.0));
            assert(self.well_formed());
        }
        Some(index)
    }

    /// The node of `object`, adding the object first when it is not there.
    fn get_or_insert_node(&mut self, object: ObjectId) -> (r: usize)
        requires
            old(self).well_formed(),
        ensures
            final(self).well_formed(),
            final(self).objects() == old(self).objects().insert(object.0),
            final(self).child_lists() == with_object(old(self).child_lists(), object.0),
            final(self).indices@.dom().contains(object.0),
            r == final(self).indices@[object.0],
            forall|o: usize| #[trigger] old(self).indices@.dom().contains(o) ==> final(self).indices@[o] == old(self).indices@[o],
    {
        if let Some(index) = self.indices.get(&object.0) {
            assert(self.objects().insert(object.0) =~= self.objects());
            assert(with_object(self.child_lists(), object.0) == self.child_lists());
            *index
        } else {
            self.insert_root(object).unwrap()
        }
    }

    /// How often node `a` is in node `b`'s list, as a child of the objects.
    proof fn lemma_child_of_nodes(&self, a: usize, b: usize)
        requires
            self.well_formed(),
            graph_nodes(self.graph).dom().contains(a),
            graph_nodes(self.graph).dom().contains(b),
        ensures
            (count_in(kids_of(graph_incoming_lists(self.graph), b), a) > 0) == has_child(
                self.child_lists(),
                graph_nodes(self.graph)[b],
                graph_nodes(self.graph)[a],
            ),
    {
        let h = graph_nodes(self.graph);
        let lists = graph_incoming_lists(self.graph);
        let s = lists[b];
        self.lemma_renames();
        lemma_count_in_contains(s, a);
        assert(self.child_lists()[h[b]] == rename(s, h));
        if s.contains(a) {
            let j = choose|j: int| 0 <= j < s.len() && s[j] == a;
            assert(rename(s, h)[j] == h[a]);
        }
        if rename(s, h).contains(h[a]) {
            let j = choose|j: int| 0 <= j < rename(s, h).len() && rename(s, h)[j] == h[a];
            assert(lists.dom().contains(s[j]));
            assert(h[s[j]] == h[a]);
            assert(s[j] == a);
        }
    }

    /// Makes `parent` a parent of `child`, adding either object that is not
    /// there yet; `child` becomes the first of `parent`'s children. Refused
    /// when the link is there already, or when the link the other way round is.
    pub fn set_parent(&mut self, child: ObjectId, parent: ObjectId) -> (r: Result<(), ParentError>)
        requires
            old(self).well_formed(),
        ensures
            final(self).well_formed(),
            final(self).objects() == old(self).objects().insert(child.0).insert(parent.0),
            has_child(old(self).child_lists(), parent.0, child.0) ==> r == Err::<(), ParentError>(
                ParentError::AlreadyParented,
            ) && final(self).child_lists() == with_object(with_object(old(self).child_lists(), child.0), parent.0),
            !has_child(old(self).child_lists(), parent.0, child.0) && has_child(old(self).child_lists(), child.0, parent.0)
                ==> r == Err::<(), ParentError>(ParentError::ChildToParent) && final(self).child_lists()
                == with_object(with_object(old(self).child_lists(), child.0), parent.0),
            !has_child(old(self).child_lists(), parent.0, child.0) && !has_child(old(self).child_lists(), child.0, parent.0)
                ==> r is Ok && final(self).child_lists() == linked(old(self).child_lists(), child.0, parent.0),
    {
        let ghost k0 = self.child_lists();
        let c = self.get_or_insert_node(child);
        let p = self.get_or_insert_node(parent);
        proof {
            let k1 = self.child_lists();
            assert(self.indices@.dom().contains(child.0));
            assert(graph_nodes(self.graph)[c] == child.0);
            assert(graph_nodes(self.graph)[p] == parent.0);
            self.lemma_child_of_nodes(c, p);
            self.lemma_child_of_nodes(p, c);
            assert(has_child(k1, parent.0, child.0) == has_child(k0, parent.0, child.0));
            assert(has_child(k1, child.0, parent.0) == has_child(k0, child.0, parent.0));
        }
        if graph_edges_connecting_count(&self.graph, c, p) > 0 {
            return Err(ParentError::AlreadyParented);
        } else if graph_edges_connecting_count(&self.graph, p, c) > 0 {
            return Err(ParentError::ChildToParent);
        }
        let ghost before = *self;
        graph_add_edge(&mut self.graph, c, p);
        proof {
            let h = graph_nodes(self.graph);
            let l0 = graph_incoming_lists(before.graph);
            let l1 = graph_incoming_lists(self.graph);
            assert(l1.dom() =~= h.dom());
            assert forall|q: usize, i: int| l1.dom().contains(q) && 0 <= i < l1[q].len() implies l1.dom().contains(#[trigger] l1[q][i]) by {
                if q == p {
                    if i > 0 {
                        assert(l1[q][i] == l0[p][i - 1]);
                        assert(l0.dom().contains(l0[p][i - 1]));
                    }
                } else {
                    assert(l0.dom().contains(l0[q][i]));
                }
            }
            let k1 = before.child_lists();
            let k2 = self.child_lists();
            let want = k1.insert(parent.0, seq![child.0] + k1[parent.0]);
            assert forall|o: usize| k2.dom().contains(o) implies #[trigger] k2[o] == want[o] by {
                if o == parent.0 {
                    assert(rename(seq![c] + l0[p], h) =~= seq![child.0] + rename(l0[p], h));
                } else {
                    assert(self.indices@[o] != p);
                }
            }
            assert(k2 =~= want);
        }
        Ok(())
    }
}

impl Hierarchy {
    /// Appends everything below `node`: its children, then, child by child,
    /// everything below that child.
    fn visit(&self, node: usize, out: &mut Vec<usize>, Ghost(rank): Ghost<Map<usize, nat>>)
        requires
            ranked(graph_incoming_lists(self.graph), rank),
        ensures
            forall|f: nat| f > rank_of(rank, node) ==> final(out)@ == old(out)@ + #[trigger] below(graph_incoming_lists(self.graph), node, f),
        decreases rank_of(rank, node),
    {
        let ghost lists = graph_incoming_lists(self.graph);
        let children = graph_incoming(&self.graph, node);
        let ghost start = out@;
        let mut i: usize = 0;
        while i < children.len()
            invariant
                i <= children@.len(),
                out@ == start + children@.subrange(0, i as int),
            decreases children@.len() - i,
        {
            out.push(children[i]);
            assert(children@.subrange(0, i + 1) =~= children@.subrange(0, i as int).push(children@[i as int]));
            i = i + 1;
        }
        assert(children@.subrange(0, children@.len() as int) =~= children@);
        let ghost mid = out@;
        let mut j: usize = 0;
        while j < children.len()
            invariant
                j <= children@.len(),
                children@ == kids_of(lists, node),
                lists == graph_incoming_lists(self.graph),
                ranked(lists, rank),
                forall|g: nat| g >= rank_of(rank, node) ==> out@ == mid + #[trigger] below_all(lists, children@.subrange(0, j as int), g),
            decreases children@.len() - j,
        {
            proof {
                lemma_child_ranks_lower(lists, rank, node, j as int);
            }
            let ghost pre = out@;
            self.visit(children[j], out, Ghost(rank));
            proof {
                let cs = children@.subrange(0, j + 1);
                assert(cs.drop_last() =~= children@.subrange(0, j as int));
                assert(cs.last() == children@[j as int]);
                assert forall|g: nat| g >= rank_of(rank, node) implies out@ == mid + #[trigger] below_all(lists, cs, g) by {
                    assert(pre == mid + below_all(lists, children@.subrange(0, j as int), g));
                    assert(g > rank_of(rank, children@[j as int]));
                    assert(out@ == pre + below(lists, children@[j as int], g));
                    assert(below_all(lists, cs, g) == below_all(lists, children@.subrange(0, j as int), g) + below(lists, children@[j as int], g));
                }
            }
            j = j + 1;
        }
        proof {
            assert(children@.subrange(0, children@.len() as int) =~= children@);
            assert forall|f: nat| f > rank_of(rank, node) implies out@ == start + #[trigger] below(lists, node, f) by {
                let g = (f - 1) as nat;
                assert(out@ == mid + below_all(lists, children@, g));
            }
        }
    }

    /// Objects without a cycle of links give graph nodes a ranking with no
    /// rank above the number of objects.
    proof fn lemma_node_ranking(&self)
        requires
            self.well_formed(),
            acyclic(self.child_lists()),
        ensures
            exists|rank: Map<usize, nat>|
                ranked(graph_incoming_lists(self.graph), rank) && forall|v: usize| rank.dom().contains(v)
                    ==> #[trigger] rank[v] <= self.objects().len(),
    {
        let k = self.child_lists();
        let h = graph_nodes(self.graph);
        let lists = graph_incoming_lists(self.graph);
        self.lemma_children_are_objects();
        self.lemma_renames();
        let any_rank = choose|rank: Map<usize, nat>| ranked(k, rank);
        lemma_compact_ranking(k, any_rank);
        let rank_o = choose|r: Map<usize, nat>|
            ranked(k, r) && forall|v: usize| r.dom().contains(v) ==> #[trigger] r[v] <= k.dom().len();
        let rank_n = Map::new(
            |n: usize| h.dom().contains(n) && rank_o.dom().contains(h[n]),
            |n: usize| rank_o[h[n]],
        );
        assert forall|n: usize, i: int| lists.dom().contains(n) && 0 <= i < lists[n].len() implies #[trigger] child_ranks_lower(lists, rank_n, n, i) by {
            let m = lists[n][i];
            assert(lists.dom().contains(m));
            assert(k[h[n]] == rename(lists[n], h));
            assert(k[h[n]][i] == h[m]);
            assert(child_ranks_lower(k, rank_o, h[n], i));
        }
        assert forall|v: usize| rank_n.dom().contains(v) implies #[trigger] rank_n[v] <= self.objects().len() by {
            assert(rank_o[h[v]] <= k.dom().len());
        }
        assert(ranked(lists, rank_n));
    }

    /// The nodes below the node of `parent`, listed as `below` says.
    fn get_children_indices(&self, parent: ObjectId) -> (r: Option<Vec<usize>>)
        requires
            self.well_formed(),
            acyclic(self.child_lists()),
        ensures
            r is None <==> !self.objects().contains(parent.0),
            r matches Some(v) ==> v@ == below(graph_incoming_lists(self.graph), self.indices@[parent.0], (self.objects().len() + 1) as nat),
    {
        let index = match self.indices.get(&parent.0) {
            Some(i) => *i,
            None => {
                return None;
            },
        };
        let ghost lists = graph_incoming_lists(self.graph);
        proof {
            self.lemma_node_ranking();
        }
        let ghost rank = choose|rank: Map<usize, nat>|
            ranked(lists, rank) && forall|v: usize| rank.dom().contains(v) ==> #[trigger] rank[v] <= self.objects().len();
        let mut out: Vec<usize> = Vec::new();
        self.visit(index, &mut out, Ghost(rank));
        proof {
            if rank.dom().contains(index) {
                assert(rank[index] <= self.objects().len());
            }
            assert(out@ =~= Seq::<usize>::empty() + below(lists, index, (self.objects().len() + 1) as nat));
        }
        Some(out)
    }

    /// Everything below `parent`, children before their own children: an
    /// object's children come in its list's order (the most recent link
    /// first), each followed, in turn, by everything below it. An object
    /// reached along two chains of links is listed twice. `None` when
    /// `parent` is not in the hierarchy.
    pub fn get_children(&self, parent: ObjectId) -> (r: Option<Vec<ObjectId>>)
        requires
            self.well_formed(),
            acyclic(self.child_lists()),
        ensures
            r is None <==> !self.objects().contains(parent.0),
            r matches Some(v) ==> v@ == below(self.child_lists(), parent.0, (self.objects().len() + 1) as nat).map_values(
                |o: usize| ObjectId(o),
            ),
    {
        let indices = match self.get_children_indices(parent) {
            Some(v) => v,
            None => {
                return None;
            },
        };
        let ghost lists = graph_incoming_lists(self.graph);
        let ghost h = graph_nodes(self.graph);
        let ghost fuel = (self.objects().len() + 1) as nat;
        let ghost index = self.indices@[parent.0];
        proof {
            self.lemma_renames();
            lemma_rename_below(self.child_lists(), lists, h, index, fuel);
            lemma_below_are_keys(lists, index, fuel);
        }
        let mut out: Vec<ObjectId> = Vec::new();
        let mut i: usize = 0;
        while i < indices.len()
            invariant
                i <= indices@.len(),
                indices@ == below(lists, index, fuel),
                lists == graph_incoming_lists(self.graph),
                h == graph_nodes(self.graph),
                self.well_formed(),
                forall|k: int| 0 <= k < indices@.len() ==> lists.dom().contains(#[trigger] indices@[k]),
                out@ == indices@.subrange(0, i as int).map_values(|n: usize| ObjectId(h[n])),
            decreases indices@.len() - i,
        {
            assert(lists.dom().contains(indices@[i as int]));
            let object = graph_node_weight(&self.graph, indices[i]).unwrap();
            out.push(ObjectId(object));
            assert(indices@.subrange(0, i + 1).map_values(|n: usize| ObjectId(h[n])) =~= indices@.subrange(
                0,
                i as int,
            ).map_values(|n: usize| ObjectId(h[n])).push(ObjectId(object)));
            i = i + 1;
        }
        proof {
            assert(indices@.subrange(0, indices@.len() as int) =~= indices@);
            assert(h[index] == parent.0);
            assert(out@ =~= rename(below(lists, index, fuel), h).map_values(|o: usize| ObjectId(o)));
        }
        Some(out)
    }

    /// Removes the node `index` with its object and every edge that touches it.
    fn remove_node_of(&mut self, index: usize) -> (object: usize)
        requires
            old(self).well_formed(),
            graph_nodes(old(self).graph).dom().contains(index),
        ensures
            final(self).well_formed(),
            object == graph_nodes(old(self).graph)[index],
            graph_nodes(final(self).graph) == graph_nodes(old(self).graph).remove(index),
            graph_incoming_lists(final(self).graph) == prune(graph_incoming_lists(old(self).graph), seq![index]),
            final(self).indices@ == old(self).indices@.remove(object),
    {
        let ghost before = *self;
        let object = graph_remove_node(&mut self.graph, index).unwrap();
        self.indices.remove(&object);
        proof {
            let h0 = graph_nodes(before.graph);
            let h1 = graph_nodes(self.graph);
            let l0 = graph_incoming_lists(before.graph);
            let l1 = graph_incoming_lists(self.graph);
            assert forall|y: usize| #[trigger] seq![index].contains(y) == (y == index) by {
                if y == index {
                    assert(seq![index][0] == index);
                }
            }
            assert forall|o: usize| #[trigger] self.indices@.dom().contains(o) implies h1.dom().contains(self.indices@[o]) && h1[self.indices@[o]] == o by {
                assert(before.indices@.dom().contains(o));
                assert(h0.dom().contains(before.indices@[o]));
            }
            assert forall|n: usize| #[trigger] h1.dom().contains(n) implies self.indices@.dom().contains(h1[n]) && self.indices@[h1[n]] == n by {
                assert(h0.dom().contains(n));
                assert(before.indices@.dom().contains(h0[n]));
                assert(before.indices@[object] == index);
            }
            assert(l1.dom() =~= h1.dom());
            assert forall|p: usize, i: int| l1.dom().contains(p) && 0 <= i < l1[p].len() implies l1.dom().contains(#[trigger] l1[p][i]) by {
                let s = l0[p];
                s.lemma_filter_pred(not_in(seq![index]), i);
                assert(l1[p].contains(l1[p][i]));
                s.lemma_filter_contains_rev(not_in(seq![index]), l1[p][i]);
                let j = choose|j: int| 0 <= j < s.len() && s[j] == l1[p][i];
                assert(l0.dom().contains(l0[p][j]));
            }
        }
        object
    }

    /// Removes everything below `parent` (but not `parent`), and every
    /// mention of a removed object in the others' children, and returns the
    /// removed objects in the order of `get_children`. `None`, with nothing
    /// changed, when `parent` is not in the hierarchy. An object listed twice
    /// below `parent` would be removed twice, which the graph does not allow.
    pub fn remove_recursively(&mut self, parent: ObjectId) -> (r: Option<Vec<ObjectId>>)
        requires
            old(self).well_formed(),
            acyclic(old(self).child_lists()),
            below(old(self).child_lists(), parent.0, (old(self).objects().len() + 1) as nat).no_duplicates(),
        ensures
            final(self).well_formed(),
            !old(self).objects().contains(parent.0) ==> r is None && final(self).objects() == old(self).objects()
                && final(self).child_lists() == old(self).child_lists(),
            old(self).objects().contains(parent.0) ==> ({
                let gone = below(old(self).child_lists(), parent.0, (old(self).objects().len() + 1) as nat);
                &&& r matches Some(v) && v@ == gone.map_values(|o: usize| ObjectId(o))
                &&& final(self).objects() == old(self).objects().difference(gone.to_set())
                &&& final(self).child_lists() == prune(old(self).child_lists(), gone)
            }),
    {
        let listing = match self.get_children_indices(parent) {
            Some(v) => v,
            None => {
                return None;
            },
        };
        let ghost before = *self;
        let ghost l0 = graph_incoming_lists(self.graph);
        let ghost h0 = graph_nodes(self.graph);
        let ghost fuel = (self.objects().len() + 1) as nat;
        let ghost index = self.indices@[parent.0];
        proof {
            self.lemma_renames();
            lemma_rename_below(self.child_lists(), l0, h0, index, fuel);
            lemma_below_are_keys(l0, index, fuel);
            assert(h0[index] == parent.0);
            let gone = rename(listing@, h0);
            assert forall|j: int, k: int| 0 <= j < listing@.len() && 0 <= k < listing@.len() && j != k implies listing@[j] != listing@[k] by {
                assert(gone[j] != gone[k]);
            }
            lemma_prune_nothing(l0);
            assert(listing@.subrange(0, 0) =~= Seq::<usize>::empty());
        }
        let mut out: Vec<ObjectId> = Vec::new();
        let mut i: usize = 0;
        while i < listing.len()
            invariant
                i <= listing@.len(),
                self.well_formed(),
                listing@ == below(l0, index, fuel),
                listing@.no_duplicates(),
                forall|k: int| 0 <= k < listing@.len() ==> l0.dom().contains(#[trigger] listing@[k]),
                l0.dom() == h0.dom(),
                forall|n: usize| #[trigger] graph_nodes(self.graph).dom().contains(n) == (h0.dom().contains(n)
                    && !listing@.subrange(0, i as int).contains(n)),
                forall|n: usize| #[trigger] graph_nodes(self.graph).dom().contains(n) ==> graph_nodes(self.graph)[n] == h0[n],
                graph_incoming_lists(self.graph) == prune(l0, listing@.subrange(0, i as int)),
                out@ == listing@.subrange(0, i as int).map_values(|n: usize| ObjectId(h0[n])),
            decreases listing@.len() - i,
        {
            let ghost done = listing@.subrange(0, i as int);
            let ghost done_next = listing@.subrange(0, i + 1);
            let ghost x = listing@[i as int];
            let ghost nodes_before = graph_nodes(self.graph);
            proof {
                assert(done_next =~= done.push(x));
                if done.contains(x) {
                    let j = choose|j: int| 0 <= j < done.len() && done[j] == x;
                    assert(listing@[j] == listing@[i as int]);
                }
                assert(graph_nodes(self.graph).dom().contains(x));
                assert(graph_nodes(self.graph)[x] == h0[x]);
            }
            let object = self.remove_node_of(listing[i]);
            out.push(ObjectId(object));
            proof {
                assert forall|y: usize| #[trigger] done_next.contains(y) == (done.contains(y) || y == x) by {
                    if done_next.contains(y) && y != x {
                        let j = choose|j: int| 0 <= j < done_next.len() && done_next[j] == y;
                        assert(done[j] == y);
                    }
                    if done.contains(y) {
                        let j = choose|j: int| 0 <= j < done.len() && done[j] == y;
                        assert(done_next[j] == y);
                    }
                    if y == x {
                        assert(done_next[i as int] == x);
                    }
                }
                assert forall|n: usize| #[trigger] graph_nodes(self.graph).dom().contains(n) == (h0.dom().contains(n)
                    && !done_next.contains(n)) by {
                    assert(done_next.contains(n) == (done.contains(n) || n == x));
                    assert(nodes_before.dom().contains(n) == (h0.dom().contains(n) && !done.contains(n)));
                }
                assert forall|n: usize| #[trigger] graph_nodes(self.graph).dom().contains(n) implies graph_nodes(self.graph)[n] == h0[n] by {
                    assert(nodes_before.dom().contains(n));
                }
                lemma_prune_step(l0, done, x);
                assert(out@ =~= done_next.map_values(|n: usize| ObjectId(h0[n])));
            }
            i = i + 1;
        }
        proof {
            assert(listing@.subrange(0, listing@.len() as int) =~= listing@);
            let k0 = before.child_lists();
            let gone = below(k0, parent.0, fuel);
            assert(gone == rename(listing@, h0));
            let h1 = graph_nodes(self.graph);
            let l1 = graph_incoming_lists(self.graph);
            assert forall|y: usize| h0.dom().contains(y) implies listing@.contains(y) == gone.contains(h0[y]) by {
                if listing@.contains(y) {
                    let j = choose|j: int| 0 <= j < listing@.len() && listing@[j] == y;
                    assert(gone[j] == h0[y]);
                }
                if gone.contains(h0[y]) {
                    let j = choose|j: int| 0 <= j < gone.len() && gone[j] == h0[y];
                    assert(l0.dom().contains(listing@[j]));
                    assert(h0[listing@[j]] == h0[y]);
                }
            }
            // The objects left are those of the nodes left.
            assert forall|o: usize| self.objects().contains(o) == (before.objects().contains(o) && !gone.to_set().contains(o)) by {
                if self.objects().contains(o) {
                    let n = self.indices@[o];
                    assert(h1.dom().contains(n));
                    assert(h0[n] == o);
                    assert(before.indices@.dom().contains(o)) by {
                        assert(before.indices@[h0[n]] == n);
                    }
                    assert(!listing@.contains(n));
                }
                if before.objects().contains(o) && !gone.to_set().contains(o) {
                    let n = before.indices@[o];
                    assert(h0.dom().contains(n));
                    assert(!listing@.contains(n));
                    assert(h1.dom().contains(n));
                    assert(self.indices@.dom().contains(h1[n]));
                }
            }
            assert(self.objects() =~= before.objects().difference(gone.to_set()));
            // The children left are the renamed pruned lists.
            let k1 = self.child_lists();
            let want = prune(k0, gone);
            assert forall|o: usize| k1.dom().contains(o) implies #[trigger] k1[o] == want[o] by {
                let n = self.indices@[o];
                assert(h1.dom().contains(n));
                assert(h0[n] == o);
                assert(before.indices@[o] == n) by {
                    assert(before.indices@[h0[n]] == n);
                }
                let s = l0[n];
                assert forall|k: int| 0 <= k < s.len() implies not_in(listing@)(#[trigger] s[k]) == not_in(gone)(h0[s[k]]) by {
                    assert(l0.dom().contains(s[k]));
                }
                lemma_filter_map_commute(s, not_in(listing@), not_in(gone), h0);
                let kept = s.filter(not_in(listing@));
                assert(l1[n] == kept);
                assert forall|k: int| 0 <= k < kept.len() implies h1[#[trigger] kept[k]] == h0[kept[k]] by {
                    s.lemma_filter_pred(not_in(listing@), k);
                    assert(kept.contains(kept[k]));
                    s.lemma_filter_contains_rev(not_in(listing@), kept[k]);
                    let j = choose|j: int| 0 <= j < s.len() && s[j] == kept[k];
                    assert(l0.dom().contains(l0[n][j]));
                    assert(h1.dom().contains(kept[k]));
                }
                assert(rename(kept, h1) =~= rename(kept, h0));
                assert(k0[o] == rename(s, h0));
            }
            assert(k1.dom() =~= want.dom());
            assert(k1 =~= want);
        }
        Some(out)
    }
}

impl Default for Hierarchy {
    fn default() -> (r: Hierarchy)
        ensures
            r.well_formed(),
            r.objects() == Set::<usize>::empty(),
            r.child_lists() == Map::<usize, Seq<usize>>::empty(),
    {
        Hierarchy::new()
    }
}

} // verus!
