//! The solver: builds a debt graph from obligations and reduces it by four
//! passes to a smaller set of obligations with the same balances.
use crate::flow::{
    all_positive, balance, count_live, lemma_balance_live, lemma_balance_push,
    lemma_balance_update, lemma_count_live_bound, lemma_total_bounds,
    lemma_total_push, lemma_total_update, live, owed_share, pairs_unique, same_balances,
    settled_form, total,
};
use crate::graph::{
    graph_add_edge, graph_add_node, graph_edge_count, graph_edge_endpoints, graph_edge_weight,
    graph_edges, graph_find_edge, graph_new, graph_node_count, graph_node_weight, graph_nodes,
    graph_set_edge_weight, INDEX_LIMIT,
};
use crate::money::Money;
use crate::reduction::{
    build_spec, cancel_from, cancel_step, collapse_edge_spec, collapse_from, collapse_spec,
    collapse_sweep, compact_from, debts_of_edges, edge_debt, find_spec, live_spec, node_index,
    record_spec, reduce, reroute_edge_spec, reroute_from, reroute_pass, reroute_spec, sweep_from,
    with_node, EDGE_LIMIT,
};
use crate::obligation::{Debt, Obligation, Obligations};
use crate::person::Person;
use petgraph::Graph;
use vstd::prelude::*;

verus! {

/// A fault in the graph's own bookkeeping, which the solver never reaches.
#[derive(Debug, Clone, Copy, PartialEq, Eq, Structural)]
pub enum SolverError {
    /// The edge with this index has no endpoints.
    NoEndpointForEdge(usize),
    /// The node with this index has no label.
    NoWeightForNode(usize),
    /// The edge with this index has no weight.
    NoWeightForEdge(usize),
}

/// The debts of a graph's edges, in edge order.
pub open spec fn ledger(g: Graph<String, i32>) -> Seq<Debt> {
    debts_of_edges(graph_nodes(g), graph_edges(g))
}

/// No two nodes carry the same label.
pub open spec fn labels_distinct(n: Seq<Seq<char>>) -> bool {
    forall|i: int, j: int|
        0 <= i < n.len() && 0 <= j < n.len() && i != j ==> #[trigger] n[i] != #[trigger] n[j]
}

/// Every edge joins two different existing nodes, with a weight not below zero.
pub open spec fn edges_sound(n_len: int, es: Seq<(usize, usize, i32)>) -> bool {
    forall|i: int|
        0 <= i < es.len() ==> (#[trigger] es[i]).0 < n_len && es[i].1 < n_len && es[i].0 != es[i].1
            && es[i].2 >= 0
}

/// The two edges run between the same ordered pair of nodes.
pub open spec fn same_ends(a: (usize, usize, i32), b: (usize, usize, i32)) -> bool {
    a.0 == b.0 && a.1 == b.1
}

/// Of two edges between the same ordered pair of nodes, one has weight zero.
pub open spec fn live_distinct(es: Seq<(usize, usize, i32)>) -> bool {
    forall|i: int, j: int|
        0 <= i < es.len() && 0 <= j < es.len() && i != j && same_ends(#[trigger] es[i], #[trigger] es[j])
            ==> es[i].2 == 0 || es[j].2 == 0
}

/// No two edges run between the same ordered pair of nodes.
pub open spec fn all_distinct(es: Seq<(usize, usize, i32)>) -> bool {
    forall|i: int, j: int|
        0 <= i < es.len() && 0 <= j < es.len() && i != j ==> !same_ends(#[trigger] es[i], #[trigger] es[j])
}

/// The invariant of the debt graph between two steps of the solver.
pub open spec fn well_formed(g: Graph<String, i32>) -> bool {
    &&& labels_distinct(graph_nodes(g))
    &&& edges_sound(graph_nodes(g).len() as int, graph_edges(g))
    &&& live_distinct(graph_edges(g))
    &&& graph_nodes(g).len() <= INDEX_LIMIT
    &&& graph_edges(g).len() <= EDGE_LIMIT
}

/// The index of the node labelled `label`, which is added if it is missing.
fn node_for(g: &mut Graph<String, i32>, label: &String) -> (r: usize)
    requires
        labels_distinct(graph_nodes(*old(g))),
        graph_nodes(*old(g)).len() < INDEX_LIMIT,
    ensures
        labels_distinct(graph_nodes(*final(g))),
        r < graph_nodes(*final(g)).len(),
        graph_nodes(*final(g))[r as int] == label@,
        graph_edges(*final(g)) == graph_edges(*old(g)),
        graph_nodes(*final(g)) == with_node(graph_nodes(*old(g)), label@),
        r == node_index(graph_nodes(*final(g)), label@),
{
    let n = graph_node_count(g);
    let mut i: usize = 0;
    while i < n
        invariant
            *g == *old(g),
            labels_distinct(graph_nodes(*g)),
            n == graph_nodes(*g).len(),
            n < INDEX_LIMIT,
            i <= n,
            forall|j: int| 0 <= j < i ==> graph_nodes(*g)[j] != label@,
        decreases n - i,
    {
        match graph_node_weight(g, i) {
            Some(l) => {
                if l == *label {
                    assert(graph_nodes(*g).contains(label@));
                    proof {
                        lemma_node_index(graph_nodes(*g), label@, i as int);
                    }
                    return i;
                }
            },
            None => {},
        }
        i = i + 1;
    }
    let ghost before = graph_nodes(*g);
    assert(!before.contains(label@));
    let r = graph_add_node(g, label.clone());
    assert(graph_nodes(*g)[r as int] == label@);
    assert(labels_distinct(graph_nodes(*g))) by {
        assert forall|a: int, b: int|
            0 <= a < graph_nodes(*g).len() && 0 <= b < graph_nodes(*g).len() && a != b implies
                #[trigger] graph_nodes(*g)[a] != #[trigger] graph_nodes(*g)[b] by {
            if a < before.len() && b < before.len() {
                assert(graph_nodes(*g)[a] == before[a]);
                assert(graph_nodes(*g)[b] == before[b]);
            }
        }
    }
    proof {
        lemma_node_index(graph_nodes(*g), label@, r as int);
    }
    r
}

/// Where no two edges share their ends, the edge from `a` to `b` is the one
/// found.
proof fn lemma_find_unique(es: Seq<(usize, usize, i32)>, a: usize, b: usize, e: int)
    requires
        all_distinct(es),
        0 <= e < es.len(),
        es[e].0 == a,
        es[e].1 == b,
    ensures
        find_spec(es, a, b) == Some(e),
{
    assert(es[e].0 == a && es[e].1 == b);
    let c = choose|i: int| 0 <= i < es.len() && (#[trigger] es[i]).0 == a && es[i].1 == b;
    assert(0 <= c < es.len() && es[c].0 == a && es[c].1 == b);
    if c != e {
        assert(!same_ends(es[c], es[e]));
    }
}

/// Where no two edges of nonzero weight share their ends, the edge of nonzero
/// weight from `a` to `b` is the one found.
proof fn lemma_live_unique(es: Seq<(usize, usize, i32)>, a: usize, b: usize, e: int)
    requires
        live_distinct(es),
        0 <= e < es.len(),
        es[e].0 == a,
        es[e].1 == b,
        es[e].2 != 0,
    ensures
        live_spec(es, a, b) == Some(e),
{
    assert(es[e].0 == a && es[e].1 == b && es[e].2 != 0);
    let c = choose|i: int| 0 <= i < es.len() && (#[trigger] es[i]).0 == a && es[i].1 == b && es[i].2 != 0;
    assert(0 <= c < es.len() && es[c].0 == a && es[c].1 == b && es[c].2 != 0);
    if c != e {
        assert(same_ends(es[c], es[e]));
    }
}

/// In a list of distinct labels, the index of a label is where it stands.
proof fn lemma_node_index(ns: Seq<Seq<char>>, l: Seq<char>, i: int)
    requires
        labels_distinct(ns),
        0 <= i < ns.len(),
        ns[i] == l,
    ensures
        node_index(ns, l) == i,
{
    let c = node_index(ns, l);
    assert(0 <= c < ns.len() && ns[c] == l);
}

/// Gives edge `e` the weight `w`. The edge keeps or loses its weight being
/// nonzero, never gains it.
fn set_weight(g: &mut Graph<String, i32>, e: usize, w: i32)
    requires
        well_formed(*old(g)),
        e < graph_edges(*old(g)).len(),
        w >= 0,
        w == 0 || graph_edges(*old(g))[e as int].2 != 0,
    ensures
        well_formed(*final(g)),
        graph_nodes(*final(g)) == graph_nodes(*old(g)),
        graph_edges(*final(g)) == graph_edges(*old(g)).update(
            e as int,
            (graph_edges(*old(g))[e as int].0, graph_edges(*old(g))[e as int].1, w),
        ),
        all_distinct(graph_edges(*old(g))) ==> all_distinct(graph_edges(*final(g))),
        all_positive(ledger(*old(g))) && w > 0 ==> all_positive(ledger(*final(g))),
        forall|p: Seq<char>|
            #[trigger] balance(ledger(*final(g)), p) == balance(ledger(*old(g)), p) + owed_share(
                (
                    graph_nodes(*old(g))[graph_edges(*old(g))[e as int].0 as int],
                    graph_nodes(*old(g))[graph_edges(*old(g))[e as int].1 as int],
                    w - graph_edges(*old(g))[e as int].2,
                ),
                p,
            ),
{
    let ghost before = *g;
    graph_set_edge_weight(g, e, w);
    let ghost x = (graph_edges(before)[e as int].0, graph_edges(before)[e as int].1, w);
    assert(ledger(*g) =~= ledger(before).update(e as int, edge_debt(graph_nodes(before), x)));
    assert forall|p: Seq<char>|
        #[trigger] balance(ledger(*g), p) == balance(ledger(before), p) + owed_share(
            (
                graph_nodes(before)[graph_edges(before)[e as int].0 as int],
                graph_nodes(before)[graph_edges(before)[e as int].1 as int],
                w - graph_edges(before)[e as int].2,
            ),
            p,
        ) by {
        lemma_balance_update(ledger(before), e as int, edge_debt(graph_nodes(before), x), p);
    }
    assert(live_distinct(graph_edges(*g))) by {
        assert forall|i: int, j: int|
            0 <= i < graph_edges(*g).len() && 0 <= j < graph_edges(*g).len() && i != j
                && same_ends(#[trigger] graph_edges(*g)[i], #[trigger] graph_edges(*g)[j]) implies
                graph_edges(*g)[i].2 == 0 || graph_edges(*g)[j].2 == 0 by {
            assert(same_ends(graph_edges(before)[i], graph_edges(before)[j]));
        }
    }
    proof {
        if all_distinct(graph_edges(before)) {
            assert forall|i: int, j: int|
                0 <= i < graph_edges(*g).len() && 0 <= j < graph_edges(*g).len() && i != j implies
                    !same_ends(#[trigger] graph_edges(*g)[i], #[trigger] graph_edges(*g)[j]) by {
                assert(!same_ends(graph_edges(before)[i], graph_edges(before)[j]));
            }
        }
        if all_positive(ledger(before)) && w > 0 {
            assert forall|i: int| 0 <= i < ledger(*g).len() implies (#[trigger] ledger(*g)[i]).2 > 0 by {
                if i != e {
                    assert(ledger(*g)[i] == ledger(before)[i]);
                }
            }
        }
    }
}

/// Appends an edge from `a` to `b` of weight `w`, where no edge of nonzero
/// weight runs from `a` to `b` yet.
fn push_edge(g: &mut Graph<String, i32>, a: usize, b: usize, w: i32)
    requires
        well_formed(*old(g)),
        a < graph_nodes(*old(g)).len(),
        b < graph_nodes(*old(g)).len(),
        a != b,
        w > 0,
        graph_edges(*old(g)).len() < EDGE_LIMIT,
        forall|i: int|
            0 <= i < graph_edges(*old(g)).len() && (#[trigger] graph_edges(*old(g))[i]).0 == a
                && graph_edges(*old(g))[i].1 == b ==> graph_edges(*old(g))[i].2 == 0,
    ensures
        well_formed(*final(g)),
        graph_nodes(*final(g)) == graph_nodes(*old(g)),
        graph_edges(*final(g)) == graph_edges(*old(g)).push((a, b, w)),
        forall|p: Seq<char>|
            #[trigger] balance(ledger(*final(g)), p) == balance(ledger(*old(g)), p) + owed_share(
                (graph_nodes(*old(g))[a as int], graph_nodes(*old(g))[b as int], w as int),
                p,
            ),
{
    let ghost before = *g;
    graph_add_edge(g, a, b, w);
    assert(ledger(*g) =~= ledger(before).push(edge_debt(graph_nodes(before), (a, b, w))));
    assert forall|p: Seq<char>|
        #[trigger] balance(ledger(*g), p) == balance(ledger(before), p) + owed_share(
            (graph_nodes(before)[a as int], graph_nodes(before)[b as int], w as int),
            p,
        ) by {
        lemma_balance_push(ledger(before), edge_debt(graph_nodes(before), (a, b, w)), p);
    }
    assert(live_distinct(graph_edges(*g))) by {
        assert forall|i: int, j: int|
            0 <= i < graph_edges(*g).len() && 0 <= j < graph_edges(*g).len() && i != j
                && same_ends(#[trigger] graph_edges(*g)[i], #[trigger] graph_edges(*g)[j]) implies
                graph_edges(*g)[i].2 == 0 || graph_edges(*g)[j].2 == 0 by {
            if i < graph_edges(before).len() && j < graph_edges(before).len() {
                assert(graph_edges(*g)[i] == graph_edges(before)[i]);
                assert(graph_edges(*g)[j] == graph_edges(before)[j]);
            } else if i < graph_edges(before).len() {
                assert(graph_edges(*g)[i] == graph_edges(before)[i]);
            } else {
                assert(graph_edges(*g)[j] == graph_edges(before)[j]);
            }
        }
    }
}

/// An optional index, as an integer.
pub open spec fn as_int(r: Option<usize>) -> Option<int> {
    match r {
        Some(i) => Some(i as int),
        None => None,
    }
}

/// The index of the edge of nonzero weight from `a` to `b`, if there is one.
fn live_edge(g: &Graph<String, i32>, a: usize, b: usize) -> (r: Option<usize>)
    requires
        well_formed(*g),
    ensures
        match r {
            Some(e) => e < graph_edges(*g).len() && graph_edges(*g)[e as int].0 == a
                && graph_edges(*g)[e as int].1 == b && graph_edges(*g)[e as int].2 != 0,
            None => forall|i: int|
                0 <= i < graph_edges(*g).len() && (#[trigger] graph_edges(*g)[i]).0 == a
                    && graph_edges(*g)[i].1 == b ==> graph_edges(*g)[i].2 == 0,
        },
        live_spec(graph_edges(*g), a, b) == as_int(r),
{
    let n = graph_edge_count(g);
    let mut i: usize = 0;
    while i < n
        invariant
            well_formed(*g),
            n == graph_edges(*g).len(),
            i <= n,
            forall|j: int|
                0 <= j < i && (#[trigger] graph_edges(*g)[j]).0 == a && graph_edges(*g)[j].1 == b
                    ==> graph_edges(*g)[j].2 == 0,
        decreases n - i,
    {
        match (graph_edge_endpoints(g, i), graph_edge_weight(g, i)) {
            (Some((s, t)), Some(w)) => {
                if s == a && t == b && w != 0 {
                    proof {
                        lemma_live_unique(graph_edges(*g), a, b, i as int);
                    }
                    return Some(i);
                }
            },
            _ => {},
        }
        i = i + 1;
    }
    None
}

/// Folds the debt `from` owes `to` of `amount` into a graph that holds no two
/// edges between the same pair: onto the edge from `from` to `to` if there is
/// one, else onto a new edge.
fn record_debt(g: &mut Graph<String, i32>, from: &String, to: &String, amount: i32)
    requires
        well_formed(*old(g)),
        all_distinct(graph_edges(*old(g))),
        all_positive(ledger(*old(g))),
        from@ != to@,
        amount > 0,
        total(ledger(*old(g))) + amount <= i32::MAX,
        graph_nodes(*old(g)).len() + 2 <= INDEX_LIMIT,
        graph_edges(*old(g)).len() < EDGE_LIMIT,
    ensures
        well_formed(*final(g)),
        all_distinct(graph_edges(*final(g))),
        all_positive(ledger(*final(g))),
        graph_edges(*final(g)).len() <= graph_edges(*old(g)).len() + 1,
        graph_nodes(*final(g)).len() <= graph_nodes(*old(g)).len() + 2,
        total(ledger(*final(g))) == total(ledger(*old(g))) + amount,
        (graph_nodes(*final(g)), graph_edges(*final(g))) == record_spec(
            (graph_nodes(*old(g)), graph_edges(*old(g))),
            (from@, to@, amount as int),
        ),
        forall|p: Seq<char>|
            #[trigger] balance(ledger(*final(g)), p) == balance(ledger(*old(g)), p) + owed_share(
                (from@, to@, amount as int),
                p,
            ),
{
    let ghost start = *g;
    let a = node_for(g, from);
    let b = node_for(g, to);
    assert(ledger(*g) =~= ledger(start));
    let ghost mid = *g;
    match graph_find_edge(g, a, b) {
        Some(e) => {
            proof {
                lemma_find_unique(graph_edges(mid), a, b, e as int);
            }
            match graph_edge_weight(g, e) {
                Some(w) => {
                    proof {
                        lemma_total_bounds(ledger(mid), e as int);
                        lemma_total_update(
                            ledger(mid),
                            e as int,
                            (from@, to@, w + amount),
                        );
                    }
                    set_weight(g, e, w + amount);
                    assert(ledger(*g) =~= ledger(mid).update(e as int, (from@, to@, w + amount)));
                    assert(all_distinct(graph_edges(*g))) by {
                        assert forall|i: int, j: int|
                            0 <= i < graph_edges(*g).len() && 0 <= j < graph_edges(*g).len() && i
                                != j implies !same_ends(
                                #[trigger] graph_edges(*g)[i],
                                #[trigger] graph_edges(*g)[j],
                            ) by {
                            assert(!same_ends(graph_edges(mid)[i], graph_edges(mid)[j]));
                        }
                    }
                },
                None => {},
            }
        },
        None => {
            push_edge(g, a, b, amount);
            proof {
                lemma_total_push(ledger(mid), (from@, to@, amount as int));
            }
            assert(ledger(*g) =~= ledger(mid).push((from@, to@, amount as int)));
            assert(all_distinct(graph_edges(*g))) by {
                assert forall|i: int, j: int|
                    0 <= i < graph_edges(*g).len() && 0 <= j < graph_edges(*g).len() && i != j implies
                        !same_ends(#[trigger] graph_edges(*g)[i], #[trigger] graph_edges(*g)[j]) by {
                    if i < graph_edges(mid).len() && j < graph_edges(mid).len() {
                        assert(!same_ends(graph_edges(mid)[i], graph_edges(mid)[j]));
                    } else if i < graph_edges(mid).len() {
                        assert(graph_edges(*g)[i] == graph_edges(mid)[i]);
                    } else {
                        assert(graph_edges(*g)[j] == graph_edges(mid)[j]);
                    }
                }
            }
        },
    }
}

/// Reroutes edge `e`, from `s` to `t`, through node `n`, to which both `s`
/// (edge `a`) and `t` (edge `b`) owe: `s` pays `n` directly, and what `t`
/// owed `n` shrinks by the same amount, turning into a debt of `n` to `t`
/// where it would go below zero. Nothing changes, and false is returned,
/// where a weight would leave `i32` or the graph has no room for an edge.
fn reroute(g: &mut Graph<String, i32>, e: usize, a: usize, b: usize, s: usize, t: usize, n: usize) -> (applied: bool)
    requires
        well_formed(*old(g)),
        e < graph_edges(*old(g)).len(),
        a < graph_edges(*old(g)).len(),
        b < graph_edges(*old(g)).len(),
        graph_edges(*old(g))[e as int].0 == s,
        graph_edges(*old(g))[e as int].1 == t,
        graph_edges(*old(g))[a as int].0 == s,
        graph_edges(*old(g))[a as int].1 == n,
        graph_edges(*old(g))[b as int].0 == t,
        graph_edges(*old(g))[b as int].1 == n,
        graph_edges(*old(g))[a as int].2 != 0,
        graph_edges(*old(g))[b as int].2 != 0,
        n != s,
        n != t,
    ensures
        well_formed(*final(g)),
        same_balances(ledger(*final(g)), ledger(*old(g))),
        graph_nodes(*final(g)) == graph_nodes(*old(g)),
        graph_edges(*final(g)).len() >= graph_edges(*old(g)).len(),
        !applied ==> *final(g) == *old(g),
        reroute_spec(graph_edges(*old(g)), e as int, a as int, b as int, t, n) == if applied {
            Some(graph_edges(*final(g)))
        } else {
            None
        },
{
    let ghost g0 = *g;
    let w = match graph_edge_weight(g, e) {
        Some(w) => w,
        None => { return false; },
    };
    let sw = match graph_edge_weight(g, a) {
        Some(w) => w,
        None => { return false; },
    };
    let tw = match graph_edge_weight(g, b) {
        Some(w) => w,
        None => { return false; },
    };
    if w == 0 || sw > i32::MAX - w {
        return false;
    }
    let ghost ls = graph_nodes(g0)[s as int];
    let ghost lt = graph_nodes(g0)[t as int];
    let ghost ln = graph_nodes(g0)[n as int];
    if tw > w {
        set_weight(g, a, sw + w);
        set_weight(g, b, tw - w);
        set_weight(g, e, 0);
        assert forall|p: Seq<char>| #[trigger] balance(ledger(*g), p) == balance(ledger(g0), p) by {
            assert(owed_share((ls, ln, w as int), p) + owed_share((lt, ln, -w), p) + owed_share((ls, lt, -w), p) == 0);
        }
        return true;
    }
    let rest = w - tw;
    if rest > 0 {
        match live_edge(g, n, t) {
            Some(c) => {
                let cw = match graph_edge_weight(g, c) {
                    Some(x) => x,
                    None => { return false; },
                };
                if cw > i32::MAX - rest {
                    return false;
                }
                set_weight(g, c, cw + rest);
            },
            None => {
                if graph_edge_count(g) >= EDGE_LIMIT {
                    return false;
                }
                push_edge(g, n, t, rest);
            },
        }
    }
    let ghost g1 = *g;
    assert(forall|p: Seq<char>| #[trigger] balance(ledger(g1), p) == balance(ledger(g0), p) + owed_share((ln, lt, rest as int), p));
    set_weight(g, a, sw + w);
    set_weight(g, b, 0);
    set_weight(g, e, 0);
    assert forall|p: Seq<char>| #[trigger] balance(ledger(*g), p) == balance(ledger(g0), p) by {
        assert(owed_share((ln, lt, rest as int), p) + owed_share((ls, ln, w as int), p) + owed_share((lt, ln, -tw), p) + owed_share((ls, lt, -w), p) == 0);
    }
    true
}

/// Reroutes edge `e` through the first node, in node order, that lets it.
fn reroute_edge(g: &mut Graph<String, i32>, e: usize)
    requires
        well_formed(*old(g)),
        e < graph_edges(*old(g)).len(),
    ensures
        well_formed(*final(g)),
        same_balances(ledger(*final(g)), ledger(*old(g))),
        graph_nodes(*final(g)) == graph_nodes(*old(g)),
        graph_edges(*final(g)).len() >= graph_edges(*old(g)).len(),
        graph_edges(*final(g)) == reroute_edge_spec(
            graph_nodes(*old(g)).len() as int,
            graph_edges(*old(g)),
            e as int,
        ),
{
    let ghost es = graph_edges(*g);
    let (s, t) = match graph_edge_endpoints(g, e) {
        Some(x) => x,
        None => { return; },
    };
    let m = graph_node_count(g);
    let mut node: usize = 0;
    while node < m
        invariant
            *g == *old(g),
            well_formed(*g),
            e < graph_edges(*g).len(),
            graph_edges(*g)[e as int].0 == s,
            graph_edges(*g)[e as int].1 == t,
            m == graph_nodes(*g).len(),
            node <= m,
            es == graph_edges(*g),
            reroute_from(m as int, es, e as int, s, t, node as int) == reroute_from(
                m as int,
                es,
                e as int,
                s,
                t,
                0,
            ),
        decreases m - node,
    {
        if node != s && node != t {
            match (live_edge(g, s, node), live_edge(g, t, node)) {
                (Some(a), Some(b)) => {
                    if reroute(g, e, a, b, s, t, node) {
                        return;
                    }
                },
                _ => {},
            }
        }
        node = node + 1;
    }
}

/// Collapses edge `e`, from `s` to `t`, with edge `f`, from `t` to `n`, of the
/// same weight: `s` owes `n` that weight directly and both edges go to zero.
/// Nothing changes, and false is returned, where a weight would leave `i32`
/// or the graph has no room for an edge.
fn collapse(g: &mut Graph<String, i32>, e: usize, f: usize, s: usize, t: usize, n: usize) -> (applied: bool)
    requires
        well_formed(*old(g)),
        e < graph_edges(*old(g)).len(),
        f < graph_edges(*old(g)).len(),
        graph_edges(*old(g))[e as int].0 == s,
        graph_edges(*old(g))[e as int].1 == t,
        graph_edges(*old(g))[f as int].0 == t,
        graph_edges(*old(g))[f as int].1 == n,
        graph_edges(*old(g))[e as int].2 != 0,
        graph_edges(*old(g))[f as int].2 == graph_edges(*old(g))[e as int].2,
        n != s,
    ensures
        well_formed(*final(g)),
        same_balances(ledger(*final(g)), ledger(*old(g))),
        graph_nodes(*final(g)) == graph_nodes(*old(g)),
        graph_edges(*final(g)).len() >= graph_edges(*old(g)).len(),
        !applied ==> *final(g) == *old(g),
        collapse_spec(graph_edges(*old(g)), e as int, f as int, s, n) == if applied {
            Some(graph_edges(*final(g)))
        } else {
            None
        },
{
    let ghost g0 = *g;
    let w = match graph_edge_weight(g, e) {
        Some(w) => w,
        None => { return false; },
    };
    match live_edge(g, s, n) {
        Some(c) => {
            let cw = match graph_edge_weight(g, c) {
                Some(x) => x,
                None => { return false; },
            };
            if cw > i32::MAX - w {
                return false;
            }
            set_weight(g, c, cw + w);
        },
        None => {
            if graph_edge_count(g) >= EDGE_LIMIT {
                return false;
            }
            push_edge(g, s, n, w);
        },
    }
    let ghost ls = graph_nodes(g0)[s as int];
    let ghost lt = graph_nodes(g0)[t as int];
    let ghost ln = graph_nodes(g0)[n as int];
    set_weight(g, e, 0);
    set_weight(g, f, 0);
    assert forall|p: Seq<char>| #[trigger] balance(ledger(*g), p) == balance(ledger(g0), p) by {
        assert(owed_share((ls, ln, w as int), p) + owed_share((ls, lt, -w), p) + owed_share((lt, ln, -w), p) == 0);
    }
    true
}

/// Collapses edge `e` with the first edge, in node order, that leaves its
/// target with the same weight and does not return to its source.
fn collapse_edge(g: &mut Graph<String, i32>, e: usize)
    requires
        well_formed(*old(g)),
        e < graph_edges(*old(g)).len(),
    ensures
        well_formed(*final(g)),
        same_balances(ledger(*final(g)), ledger(*old(g))),
        graph_nodes(*final(g)) == graph_nodes(*old(g)),
        graph_edges(*final(g)).len() >= graph_edges(*old(g)).len(),
        graph_edges(*final(g)) == collapse_edge_spec(
            graph_nodes(*old(g)).len() as int,
            graph_edges(*old(g)),
            e as int,
        ),
{
    let ghost es = graph_edges(*g);
    let (s, t) = match graph_edge_endpoints(g, e) {
        Some(x) => x,
        None => { return; },
    };
    let w = match graph_edge_weight(g, e) {
        Some(x) => x,
        None => { return; },
    };
    if w == 0 {
        return;
    }
    let m = graph_node_count(g);
    let mut node: usize = 0;
    while node < m
        invariant
            *g == *old(g),
            well_formed(*g),
            e < graph_edges(*g).len(),
            graph_edges(*g)[e as int] == (s, t, w),
            w != 0,
            m == graph_nodes(*g).len(),
            node <= m,
            es == graph_edges(*g),
            collapse_from(m as int, es, e as int, s, t, w, node as int) == collapse_from(
                m as int,
                es,
                e as int,
                s,
                t,
                w,
                0,
            ),
        decreases m - node,
    {
        if node != s {
            match live_edge(g, t, node) {
                Some(f) => {
                    match graph_edge_weight(g, f) {
                        Some(fw) => {
                            if fw == w && collapse(g, e, f, s, t, node) {
                                return;
                            }
                        },
                        None => {},
                    }
                },
                None => {},
            }
        }
        node = node + 1;
    }
}

/// Every debt that `live` keeps is a nonzero debt of the list.
proof fn lemma_live_from(ds: Seq<Debt>)
    ensures
        forall|i: int|
            0 <= i < live(ds).len() ==> exists|k: int|
                0 <= k < ds.len() && #[trigger] live(ds)[i] == ds[k] && ds[k].2 != 0,
    decreases ds.len(),
{
    if ds.len() > 0 {
        let rest = ds.drop_last();
        lemma_live_from(rest);
        assert forall|i: int| 0 <= i < live(ds).len() implies exists|k: int|
            0 <= k < ds.len() && #[trigger] live(ds)[i] == ds[k] && ds[k].2 != 0 by {
            if i < live(rest).len() {
                let k = choose|k: int| 0 <= k < rest.len() && live(rest)[i] == rest[k] && rest[k].2 != 0;
                assert(live(ds)[i] == ds[k]);
            } else {
                assert(live(ds)[i] == ds[ds.len() - 1]);
            }
        }
    }
}

/// Where no two nonzero debts of `ds` share their ordered pair, no two debts
/// of `live(ds)` do.
proof fn lemma_live_pairs_unique(ds: Seq<Debt>)
    requires
        forall|k: int, l: int|
            0 <= k < ds.len() && 0 <= l < ds.len() && k != l && (#[trigger] ds[k]).2 != 0
                && (#[trigger] ds[l]).2 != 0 ==> !(ds[k].0 == ds[l].0 && ds[k].1 == ds[l].1),
    ensures
        pairs_unique(live(ds)),
    decreases ds.len(),
{
    if ds.len() > 0 {
        let rest = ds.drop_last();
        assert forall|k: int, l: int|
            0 <= k < rest.len() && 0 <= l < rest.len() && k != l && (#[trigger] rest[k]).2 != 0
                && (#[trigger] rest[l]).2 != 0 implies !(rest[k].0 == rest[l].0 && rest[k].1
                == rest[l].1) by {
            assert(rest[k] == ds[k] && rest[l] == ds[l]);
        }
        lemma_live_pairs_unique(rest);
        if ds.last().2 != 0 {
            lemma_live_from(rest);
            let lv = live(ds);
            let lr = live(rest);
            let last_ix = ds.len() - 1;
            assert(lv == lr.push(ds[last_ix]));
            assert forall|i: int, j: int|
                0 <= i < lv.len() && 0 <= j < lv.len() && i != j implies !((#[trigger] lv[i]).0
                    == (#[trigger] lv[j]).0 && lv[i].1 == lv[j].1) by {
                if i < lr.len() && j < lr.len() {
                    assert(lv[i] == lr[i] && lv[j] == lr[j]);
                } else if i < lr.len() {
                    let k = choose|k: int| 0 <= k < rest.len() && lr[i] == rest[k] && rest[k].2 != 0;
                    assert(rest[k] == ds[k]);
                    assert(lv[i] == ds[k]);
                    assert(lv[j] == ds[last_ix]);
                } else {
                    let k = choose|k: int| 0 <= k < rest.len() && lr[j] == rest[k] && rest[k].2 != 0;
                    assert(rest[k] == ds[k]);
                    assert(lv[j] == ds[k]);
                    assert(lv[i] == ds[last_ix]);
                }
            }
        }
    }
}

/// The nonzero debts of a well-formed graph run between distinct persons, for
/// positive amounts, and no two of them between the same ordered pair.
proof fn lemma_live_ledger(g: Graph<String, i32>)
    requires
        well_formed(g),
    ensures
        settled_form(live(ledger(g))),
        pairs_unique(live(ledger(g))),
{
    let ds = ledger(g);
    let es = graph_edges(g);
    let ns = graph_nodes(g);
    lemma_live_from(ds);
    assert forall|i: int| 0 <= i < live(ds).len() implies (#[trigger] live(ds)[i]).0 != live(ds)[i].1
        && live(ds)[i].2 > 0 by {
        let k = choose|k: int| 0 <= k < ds.len() && live(ds)[i] == ds[k] && ds[k].2 != 0;
        assert(ds[k] == edge_debt(ns, es[k]));
        assert(es[k].0 != es[k].1);
        assert(ns[es[k].0 as int] != ns[es[k].1 as int]);
    }
    assert forall|k: int, l: int|
        0 <= k < ds.len() && 0 <= l < ds.len() && k != l && (#[trigger] ds[k]).2 != 0
            && (#[trigger] ds[l]).2 != 0 implies !(ds[k].0 == ds[l].0 && ds[k].1 == ds[l].1) by {
        assert(ds[k] == edge_debt(ns, es[k]));
        assert(ds[l] == edge_debt(ns, es[l]));
        assert(!same_ends(es[k], es[l]));
        if es[k].0 == es[l].0 {
            assert(ns[es[k].1 as int] != ns[es[l].1 as int]);
        } else {
            assert(ns[es[k].0 as int] != ns[es[l].0 as int]);
        }
    }
    lemma_live_pairs_unique(ds);
}

/// The first edge runs opposite to the second.
pub open spec fn opposite(a: (usize, usize, i32), b: (usize, usize, i32)) -> bool {
    a.0 == b.1 && a.1 == b.0
}

/// No edge of nonzero weight below index `k` has a reverse of nonzero weight.
pub open spec fn netted_below(es: Seq<(usize, usize, i32)>, k: int) -> bool {
    forall|i: int, j: int|
        0 <= i < k && 0 <= j < es.len() && opposite(#[trigger] es[i], #[trigger] es[j]) ==> es[i].2 == 0
            || es[j].2 == 0
}

/// No edge of nonzero weight has a reverse of nonzero weight.
pub open spec fn netted(es: Seq<(usize, usize, i32)>) -> bool {
    netted_below(es, es.len() as int)
}

/// Edge for edge, `now` joins the same nodes as `start`, and each two
/// opposite edges differ in weight by as much as they did in `start`.
pub open spec fn differences_kept(start: Seq<(usize, usize, i32)>, now: Seq<(usize, usize, i32)>) -> bool {
    &&& now.len() == start.len()
    &&& forall|i: int| 0 <= i < now.len() ==> #[trigger] same_ends(now[i], start[i])
    &&& forall|i: int, j: int|
        0 <= i < now.len() && 0 <= j < now.len() && opposite(#[trigger] now[i], #[trigger] now[j])
            ==> now[i].2 - now[j].2 == start[i].2 - start[j].2
}

/// Nets edge `e` against its reverse of nonzero weight, if it has one: the
/// larger keeps the difference, the smaller goes to zero.
fn cancel_edge(g: &mut Graph<String, i32>, e: usize)
    requires
        well_formed(*old(g)),
        all_distinct(graph_edges(*old(g))),
        e < graph_edges(*old(g)).len(),
        netted_below(graph_edges(*old(g)), e as int),
    ensures
        well_formed(*final(g)),
        all_distinct(graph_edges(*final(g))),
        graph_nodes(*final(g)) == graph_nodes(*old(g)),
        graph_edges(*final(g)).len() == graph_edges(*old(g)).len(),
        same_balances(ledger(*final(g)), ledger(*old(g))),
        graph_edges(*final(g)) == cancel_step(graph_edges(*old(g)), e as int),
        netted_below(graph_edges(*final(g)), e + 1),
        forall|i: int| 0 <= i < graph_edges(*final(g)).len() ==> #[trigger] same_ends(graph_edges(*final(g))[i], graph_edges(*old(g))[i]),
        forall|i: int, j: int|
            0 <= i < graph_edges(*final(g)).len() && 0 <= j < graph_edges(*final(g)).len()
                && opposite(#[trigger] graph_edges(*final(g))[i], #[trigger] graph_edges(*final(g))[j])
                ==> graph_edges(*final(g))[i].2 - graph_edges(*final(g))[j].2 == graph_edges(*old(g))[i].2
                - graph_edges(*old(g))[j].2,
{
    let ghost es = graph_edges(*g);
    let ghost g0 = *g;
    let (s, t) = match graph_edge_endpoints(g, e) {
        Some(x) => x,
        None => { return; },
    };
    let w1 = match graph_edge_weight(g, e) {
        Some(w) => w,
        None => { return; },
    };
    if w1 == 0 {
        return;
    }
    match live_edge(g, t, s) {
        None => {},
        Some(e2) => {
            let w2 = match graph_edge_weight(g, e2) {
                Some(w) => w,
                None => { return; },
            };
            assert(e2 != e);
            let ghost ls = graph_nodes(g0)[s as int];
            let ghost lt = graph_nodes(g0)[t as int];
            if w1 > w2 {
                set_weight(g, e, w1 - w2);
                set_weight(g, e2, 0);
            } else if w1 < w2 {
                set_weight(g, e2, w2 - w1);
                set_weight(g, e, 0);
            } else {
                set_weight(g, e, 0);
                set_weight(g, e2, 0);
            }
            assert forall|p: Seq<char>| #[trigger] balance(ledger(*g), p) == balance(ledger(g0), p) by {
                assert(owed_share((ls, lt, -(w1 as int)), p) + owed_share((lt, ls, -(w1 as int)), p) == 0);
                assert(owed_share((ls, lt, -(w2 as int)), p) + owed_share((lt, ls, -(w2 as int)), p) == 0);
            }
            assert forall|i: int, j: int|
                0 <= i < graph_edges(*g).len() && 0 <= j < graph_edges(*g).len() && opposite(
                    #[trigger] graph_edges(*g)[i],
                    #[trigger] graph_edges(*g)[j],
                ) && (i == e || i == e2 || j == e || j == e2) implies (i == e && j == e2) || (i == e2
                && j == e) by {
                if i == e && j != e2 {
                    assert(!same_ends(es[j], es[e2 as int]));
                }
                if i == e2 && j != e {
                    assert(!same_ends(es[j], es[e as int]));
                }
                if j == e && i != e2 {
                    assert(!same_ends(es[i], es[e2 as int]));
                }
                if j == e2 && i != e {
                    assert(!same_ends(es[i], es[e as int]));
                }
            }
        },
    }
    proof {
        assert forall|i: int, j: int|
            0 <= i < graph_edges(*g).len() && 0 <= j < graph_edges(*g).len() && i != j implies !same_ends(
                #[trigger] graph_edges(*g)[i],
                #[trigger] graph_edges(*g)[j],
            ) by {
            assert(!same_ends(es[i], es[j]));
        }
    }
}

/// Reduces the debts among a group to fewer transfers with the same balances.
pub struct Solver(Graph<String, i32>);

impl View for Solver {
    type V = Seq<Debt>;

    /// The debts held by the graph's edges, in edge order.
    closed spec fn view(&self) -> Seq<Debt> {
        ledger(self.0)
    }
}

impl Solver {
    /// The debt graph: node labels by index, and edges by index.
    pub closed spec fn model(&self) -> (Seq<Seq<char>>, Seq<(usize, usize, i32)>) {
        (graph_nodes(self.0), graph_edges(self.0))
    }

    /// The solver was just built: its graph is well formed and has no two
    /// edges between the same ordered pair of persons.
    pub closed spec fn is_fresh(&self) -> bool {
        &&& well_formed(self.0)
        &&& all_distinct(graph_edges(self.0))
        &&& all_positive(ledger(self.0))
    }

    /// Builds the debt graph of `item`: one node per person, one edge per
    /// ordered pair of persons, weighted by the sum of what the first owes the
    /// second in `item`.
    pub fn new(item: Obligations) -> (r: Solver)
        requires
            settled_form(item@),
            total(item@) <= i32::MAX,
            item@.len() < EDGE_LIMIT,
        ensures
            r.is_fresh(),
            same_balances(r@, item@),
            total(r@) == total(item@),
            item@.len() == 0 ==> r@.len() == 0,
            r.model() == build_spec(item@),
    {
        let mut g = graph_new();
        let v = item.raw();
        assert(ledger(g) =~= Seq::<Debt>::empty());
        assert(item@.subrange(0, 0) =~= Seq::<Debt>::empty());
        let mut i: usize = 0;
        while i < v.len()
            invariant
                well_formed(g),
                all_distinct(graph_edges(g)),
                all_positive(ledger(g)),
                i <= v@.len(),
                crate::obligation::debts_of(v@) == item@,
                settled_form(item@),
                total(item@) <= i32::MAX,
                item@.len() < EDGE_LIMIT,
                graph_edges(g).len() <= i,
                graph_nodes(g).len() <= 2 * i,
                total(ledger(g)) == total(item@.subrange(0, i as int)),
                (graph_nodes(g), graph_edges(g)) == build_spec(item@.subrange(0, i as int)),
                forall|p: Seq<char>|
                    #[trigger] balance(ledger(g), p) == balance(item@.subrange(0, i as int), p),
            decreases v@.len() - i,
        {
            let o = &v[i];
            let ghost d = item@[i as int];
            assert(crate::obligation::debts_of(v@)[i as int] == v@[i as int]@);
            assert(d == o@);
            assert(d.0 != d.1 && d.2 > 0);
            assert(all_positive(item@));
            proof {
                lemma_total_prefix(item@, i as int);
            }
            record_debt(&mut g, o.from.raw(), o.to.raw(), o.amount.raw());
            assert(item@.subrange(0, i + 1) =~= item@.subrange(0, i as int).push(d));
            assert(item@.subrange(0, i + 1).drop_last() =~= item@.subrange(0, i as int));
            proof {
                lemma_total_push(item@.subrange(0, i as int), d);
                assert forall|p: Seq<char>|
                    #[trigger] balance(ledger(g), p) == balance(
                        item@.subrange(0, i + 1),
                        p,
                    ) by {
                    lemma_balance_push(item@.subrange(0, i as int), d, p);
                }
            }
            i = i + 1;
        }
        assert(item@.subrange(0, i as int) =~= item@);
        Solver(g)
    }

    /// Runs the four passes and lists the debts that remain.
    pub fn solve(&mut self) -> (r: Result<Obligations, SolverError>)
        requires
            old(self).is_fresh(),
        ensures
            match r {
                Ok(o) => {
                    &&& o@ == reduce(old(self).model())
                    &&& same_balances(o@, old(self)@)
                    &&& settled_form(o@)
                    &&& pairs_unique(o@)
                    &&& (old(self)@.len() == 0 ==> o@.len() == 0)
                },
                Err(_) => false,
            },
    {
        let ghost start = self@;
        self.pass_remove_doubly_connected_edges();
        self.pass_simplify_double_target();
        self.pass_remove_same_weight_target();
        let ghost reduced = self.0;
        proof {
            lemma_live_ledger(reduced);
        }
        self.pass_remove_zero_edges();
        assert forall|p: Seq<char>| #[trigger] balance(self@, p) == balance(start, p) by {
            lemma_balance_live(ledger(reduced), p);
        }
        self.format_out()
    }

    /// Collapses chains of two edges of equal weight into one edge.
    fn pass_remove_same_weight_target(&mut self)
        requires
            well_formed(old(self).0),
        ensures
            well_formed(final(self).0),
            same_balances(final(self)@, old(self)@),
            graph_edges(old(self).0).len() == 0 ==> graph_edges(final(self).0).len() == 0,
            graph_nodes(final(self).0) == graph_nodes(old(self).0),
            graph_edges(final(self).0) == collapse_sweep(
                graph_nodes(old(self).0).len() as int,
                graph_edges(old(self).0),
                0,
                graph_edges(old(self).0).len() as int,
            ),
    {
        let ghost start = ledger(self.0);
        let ghost start_nodes = graph_nodes(self.0);
        let ghost start_edges = graph_edges(self.0);
        let ghost m = start_nodes.len() as int;
        let n = graph_edge_count(&self.0);
        let mut e: usize = 0;
        while e < n
            invariant
                well_formed(self.0),
                e <= n,
                n <= graph_edges(self.0).len(),
                n == 0 ==> graph_edges(self.0).len() == 0,
                same_balances(ledger(self.0), start),
                graph_nodes(self.0) == start_nodes,
                m == start_nodes.len(),
                n == start_edges.len(),
                collapse_sweep(m, graph_edges(self.0), e as int, n as int) == collapse_sweep(
                    m,
                    start_edges,
                    0,
                    n as int,
                ),
            decreases n - e,
        {
            collapse_edge(&mut self.0, e);
            e = e + 1;
        }
    }

    /// Rebuilds the graph from the edges of nonzero weight alone, with only
    /// the nodes they join.
    fn pass_remove_zero_edges(&mut self)
        requires
            well_formed(old(self).0),
        ensures
            final(self)@ == live(old(self)@),
            edges_sound(graph_nodes(final(self).0).len() as int, graph_edges(final(self).0)),
            graph_nodes(final(self).0).len() <= INDEX_LIMIT,
            graph_edges(final(self).0).len() <= EDGE_LIMIT,
            final(self).model() == compact_from(
                graph_nodes(old(self).0),
                graph_edges(old(self).0),
                0,
                (Seq::empty(), Seq::empty()),
            ),
    {
        let ghost old_nodes = graph_nodes(self.0);
        let ghost old_edges = graph_edges(self.0);
        let ghost old_ledger = ledger(self.0);
        let mut g = graph_new();
        assert(ledger(g) =~= live(old_ledger.subrange(0, 0)));
        assert((graph_nodes(g), graph_edges(g)) == (Seq::<Seq<char>>::empty(), Seq::<(usize, usize, i32)>::empty()));
        let n = graph_edge_count(&self.0);
        let mut e: usize = 0;
        while e < n
            invariant
                well_formed(self.0),
                old_ledger == ledger(self.0),
                old_nodes == graph_nodes(self.0),
                n == graph_edges(self.0).len(),
                e <= n,
                labels_distinct(graph_nodes(g)),
                edges_sound(graph_nodes(g).len() as int, graph_edges(g)),
                graph_edges(g).len() <= e,
                graph_nodes(g).len() <= 2 * graph_edges(g).len(),
                ledger(g) == live(old_ledger.subrange(0, e as int)),
                old_edges == graph_edges(self.0),
                compact_from(old_nodes, old_edges, e as int, (graph_nodes(g), graph_edges(g)))
                    == compact_from(old_nodes, old_edges, 0, (Seq::empty(), Seq::empty())),
            decreases n - e,
        {
            assert(old_ledger.subrange(0, e + 1).drop_last() =~= old_ledger.subrange(0, e as int));
            assert(old_ledger.subrange(0, e + 1).last() == old_ledger[e as int]);
            match (graph_edge_endpoints(&self.0, e), graph_edge_weight(&self.0, e)) {
                (Some((s, t)), Some(w)) => {
                    if w != 0 {
                        match (graph_node_weight(&self.0, s), graph_node_weight(&self.0, t)) {
                            (Some(ls), Some(lt)) => {
                                let ghost g0 = g;
                                let a = node_for(&mut g, &ls);
                                let b = node_for(&mut g, &lt);
                                assert(ledger(g) =~= ledger(g0));
                                let ghost g1 = g;
                                assert(old_nodes[s as int] != old_nodes[t as int]);
                                graph_add_edge(&mut g, a, b, w);
                                assert(ledger(g) =~= ledger(g1).push((ls@, lt@, w as int)));
                                assert(old_ledger[e as int] == edge_debt(old_nodes, graph_edges(self.0)[e as int]));
                            },
                            _ => {},
                        }
                    }
                },
                _ => {},
            }
            e = e + 1;
        }
        assert(old_ledger.subrange(0, e as int) =~= old_ledger);
        self.0 = g;
    }

    /// Lists the debts of the graph's edges, in edge order.
    fn format_out(&self) -> (r: Result<Obligations, SolverError>)
        requires
            edges_sound(graph_nodes(self.0).len() as int, graph_edges(self.0)),
            graph_nodes(self.0).len() <= INDEX_LIMIT,
            graph_edges(self.0).len() <= EDGE_LIMIT,
        ensures
            match r {
                Ok(o) => o@ == self@,
                Err(_) => false,
            },
    {
        let mut obligations = Obligations::builder();
        let n = graph_edge_count(&self.0);
        let mut e: usize = 0;
        while e < n
            invariant
                edges_sound(graph_nodes(self.0).len() as int, graph_edges(self.0)),
                graph_nodes(self.0).len() <= INDEX_LIMIT,
                n == graph_edges(self.0).len(),
                n <= EDGE_LIMIT,
                e <= n,
                obligations@ == ledger(self.0).subrange(0, e as int),
            decreases n - e,
        {
            let endpoint = match graph_edge_endpoints(&self.0, e) {
                Some(x) => x,
                None => { return Err(SolverError::NoEndpointForEdge(e)); },
            };
            let from = match graph_node_weight(&self.0, endpoint.0) {
                Some(l) => l,
                None => { return Err(SolverError::NoWeightForNode(endpoint.0)); },
            };
            let to = match graph_node_weight(&self.0, endpoint.1) {
                Some(l) => l,
                None => { return Err(SolverError::NoWeightForNode(endpoint.1)); },
            };
            let weight = match graph_edge_weight(&self.0, e) {
                Some(w) => w,
                None => { return Err(SolverError::NoWeightForEdge(e)); },
            };
            let o = Obligation::builder().from(Person::new(from.as_str())).to(
                Person::new(to.as_str()),
            ).amount(Money::new(weight)).build();
            assert(o@ == ledger(self.0)[e as int]);
            obligations = obligations.record(o);
            assert(ledger(self.0).subrange(0, e + 1) =~= ledger(self.0).subrange(0, e as int).push(o@));
            e = e + 1;
        }
        assert(ledger(self.0).subrange(0, e as int) =~= ledger(self.0));
        Ok(obligations.build())
    }

    /// The number of edges of nonzero weight.
    fn non_zero_edges_count(&self) -> (r: usize)
        requires
            well_formed(self.0),
        ensures
            r == count_live(graph_edges(self.0)),
    {
        let n = graph_edge_count(&self.0);
        let mut i: usize = 0;
        let mut c: usize = 0;
        while i < n
            invariant
                well_formed(self.0),
                n == graph_edges(self.0).len(),
                i <= n,
                c == count_live(graph_edges(self.0).subrange(0, i as int)),
            decreases n - i,
        {
            let ghost es = graph_edges(self.0);
            assert(es.subrange(0, i + 1).drop_last() =~= es.subrange(0, i as int));
            proof {
                lemma_count_live_bound(es.subrange(0, i as int));
            }
            match graph_edge_weight(&self.0, i) {
                Some(w) => {
                    if w != 0 {
                        c = c + 1;
                    }
                },
                None => {},
            }
            i = i + 1;
        }
        assert(graph_edges(self.0).subrange(0, i as int) =~= graph_edges(self.0));
        c
    }

    /// One sweep of rerouting: each edge that was there when the sweep
    /// started is rerouted at most once.
    fn simplify_double_target(&mut self)
        requires
            well_formed(old(self).0),
        ensures
            well_formed(final(self).0),
            same_balances(final(self)@, old(self)@),
            graph_edges(old(self).0).len() == 0 ==> graph_edges(final(self).0).len() == 0,
            graph_nodes(final(self).0) == graph_nodes(old(self).0),
            graph_edges(final(self).0) == sweep_from(
                graph_nodes(old(self).0).len() as int,
                graph_edges(old(self).0),
                0,
                graph_edges(old(self).0).len() as int,
            ),
    {
        let ghost start = ledger(self.0);
        let ghost start_nodes = graph_nodes(self.0);
        let ghost start_edges = graph_edges(self.0);
        let ghost m = start_nodes.len() as int;
        let n = graph_edge_count(&self.0);
        let mut e: usize = 0;
        while e < n
            invariant
                well_formed(self.0),
                e <= n,
                n <= graph_edges(self.0).len(),
                n == 0 ==> graph_edges(self.0).len() == 0,
                same_balances(ledger(self.0), start),
                graph_nodes(self.0) == start_nodes,
                m == start_nodes.len(),
                n == start_edges.len(),
                sweep_from(m, graph_edges(self.0), e as int, n as int) == sweep_from(
                    m,
                    start_edges,
                    0,
                    n as int,
                ),
            decreases n - e,
        {
            reroute_edge(&mut self.0, e);
            e = e + 1;
        }
    }

    /// Sweeps of rerouting, for as long as each sweep lowers the number of
    /// edges of nonzero weight.
    fn pass_simplify_double_target(&mut self)
        requires
            well_formed(old(self).0),
        ensures
            well_formed(final(self).0),
            same_balances(final(self)@, old(self)@),
            graph_edges(old(self).0).len() == 0 ==> graph_edges(final(self).0).len() == 0,
            graph_nodes(final(self).0) == graph_nodes(old(self).0),
            graph_edges(final(self).0) == reroute_pass(
                graph_nodes(old(self).0).len() as int,
                graph_edges(old(self).0),
            ),
    {
        let ghost start = ledger(self.0);
        let ghost empty = graph_edges(self.0).len() == 0;
        let ghost start_nodes = graph_nodes(self.0);
        let ghost start_edges = graph_edges(self.0);
        let ghost m = start_nodes.len() as int;
        loop
            invariant_except_break
                reroute_pass(m, graph_edges(self.0)) == reroute_pass(m, start_edges),
            invariant
                well_formed(self.0),
                same_balances(ledger(self.0), start),
                empty ==> graph_edges(self.0).len() == 0,
                graph_nodes(self.0) == start_nodes,
                m == start_nodes.len(),
            ensures
                graph_edges(self.0) == reroute_pass(m, start_edges),
            decreases count_live(graph_edges(self.0)),
        {
            let ghost before = graph_edges(self.0);
            let edge_count = self.non_zero_edges_count();
            self.simplify_double_target();
            let after = self.non_zero_edges_count();
            assert(reroute_pass(m, before) == if after >= edge_count || after == 0 || edge_count == 0 {
                graph_edges(self.0)
            } else {
                reroute_pass(m, graph_edges(self.0))
            });
            if after >= edge_count || after == 0 || edge_count == 0 {
                break;
            }
        }
    }

    /// Cancels opposite edges: of an edge and its reverse, only the larger
    /// keeps a nonzero weight, less the smaller; of two equal ones, neither.
    /// Afterwards no edge of nonzero weight has a reverse of nonzero weight,
    /// and each pair of opposite edges keeps the difference of its weights.
    fn pass_remove_doubly_connected_edges(&mut self)
        requires
            old(self).is_fresh(),
        ensures
            well_formed(final(self).0),
            all_distinct(graph_edges(final(self).0)),
            netted(graph_edges(final(self).0)),
            differences_kept(graph_edges(old(self).0), graph_edges(final(self).0)),
            same_balances(final(self)@, old(self)@),
            graph_edges(final(self).0).len() == graph_edges(old(self).0).len(),
            graph_nodes(final(self).0) == graph_nodes(old(self).0),
            graph_edges(final(self).0) == cancel_from(
                graph_edges(old(self).0),
                0,
                graph_edges(old(self).0).len() as int,
            ),
    {
        let ghost start = ledger(self.0);
        let ghost start_nodes = graph_nodes(self.0);
        let ghost start_edges = graph_edges(self.0);
        let n = graph_edge_count(&self.0);
        let mut e: usize = 0;
        while e < n
            invariant
                well_formed(self.0),
                all_distinct(graph_edges(self.0)),
                n <= EDGE_LIMIT,
                e <= n,
                graph_edges(self.0).len() == n,
                same_balances(ledger(self.0), start),
                n == start_edges.len(),
                graph_nodes(self.0) == start_nodes,
                netted_below(graph_edges(self.0), e as int),
                differences_kept(start_edges, graph_edges(self.0)),
                cancel_from(graph_edges(self.0), e as int, n as int) == cancel_from(start_edges, 0, n as int),
            decreases n - e,
        {
            let ghost before = graph_edges(self.0);
            cancel_edge(&mut self.0, e);
            assert(differences_kept(start_edges, graph_edges(self.0))) by {
                assert forall|i: int| 0 <= i < graph_edges(self.0).len() implies #[trigger] same_ends(
                    graph_edges(self.0)[i],
                    start_edges[i],
                ) by {
                    assert(same_ends(graph_edges(self.0)[i], before[i]));
                    assert(same_ends(before[i], start_edges[i]));
                }
                assert forall|i: int, j: int|
                    0 <= i < graph_edges(self.0).len() && 0 <= j < graph_edges(self.0).len()
                        && opposite(#[trigger] graph_edges(self.0)[i], #[trigger] graph_edges(self.0)[j])
                        implies graph_edges(self.0)[i].2 - graph_edges(self.0)[j].2 == start_edges[i].2
                        - start_edges[j].2 by {
                    assert(same_ends(graph_edges(self.0)[i], before[i]));
                    assert(same_ends(graph_edges(self.0)[j], before[j]));
                    assert(opposite(before[i], before[j]));
                }
            }
            e = e + 1;
        }
    }
}

/// With every amount positive, a prefix and one more debt stay within the total.
proof fn lemma_total_prefix(ds: Seq<Debt>, i: int)
    requires
        0 <= i < ds.len(),
        all_positive(ds),
    ensures
        total(ds.subrange(0, i)) + ds[i].2 <= total(ds),
{
    crate::flow::lemma_total_concat(ds.subrange(0, i + 1), ds.subrange(i + 1, ds.len() as int));
    assert(ds.subrange(0, i + 1) + ds.subrange(i + 1, ds.len() as int) =~= ds);
    assert(ds.subrange(0, i + 1) =~= ds.subrange(0, i).push(ds[i]));
    lemma_total_push(ds.subrange(0, i), ds[i]);
    crate::flow::lemma_total_nonneg(ds.subrange(i + 1, ds.len() as int));
}

} // verus!
