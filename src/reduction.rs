//! The solver's passes as functions on its graph: node labels by index, and
//! edges by index as (source, target, weight). The solver's executable passes
//! are proved to compute exactly these.
use crate::flow::count_live;
use crate::obligation::Debt;
use vstd::prelude::*;

verus! {

/// Node labels, by node index.
pub type Nodes = Seq<Seq<char>>;

/// Edges, by edge index: source node, target node, weight.
pub type Edges = Seq<(usize, usize, i32)>;

/// The most edges the solver lets its graph hold.
pub const EDGE_LIMIT: usize = 0x7fff_ffff;

/// The debt of one edge, with the labels of its endpoints.
pub open spec fn edge_debt(nodes: Nodes, e: (usize, usize, i32)) -> Debt {
    (nodes[e.0 as int], nodes[e.1 as int], e.2 as int)
}

/// The debts of all edges, in edge order.
pub open spec fn debts_of_edges(nodes: Nodes, es: Edges) -> Seq<Debt> {
    es.map_values(|e: (usize, usize, i32)| edge_debt(nodes, e))
}

/// The labels with `l` added at the end, unless it is there already.
pub open spec fn with_node(ns: Nodes, l: Seq<char>) -> Nodes {
    if ns.contains(l) {
        ns
    } else {
        ns.push(l)
    }
}

/// The index of the node labelled `l`.
pub open spec fn node_index(ns: Nodes, l: Seq<char>) -> int {
    choose|i: int| 0 <= i < ns.len() && ns[i] == l
}

/// Edge `i` with weight `w`.
pub open spec fn set_w(es: Edges, i: int, w: i32) -> Edges {
    es.update(i, (es[i].0, es[i].1, w))
}

/// An edge from `a` to `b`, if there is one.
pub open spec fn find_spec(es: Edges, a: usize, b: usize) -> Option<int> {
    if exists|i: int| 0 <= i < es.len() && (#[trigger] es[i]).0 == a && es[i].1 == b {
        Some(choose|i: int| 0 <= i < es.len() && (#[trigger] es[i]).0 == a && es[i].1 == b)
    } else {
        None
    }
}

/// An edge of nonzero weight from `a` to `b`, if there is one.
pub open spec fn live_spec(es: Edges, a: usize, b: usize) -> Option<int> {
    if exists|i: int| 0 <= i < es.len() && (#[trigger] es[i]).0 == a && es[i].1 == b && es[i].2 != 0 {
        Some(
            choose|i: int|
                0 <= i < es.len() && (#[trigger] es[i]).0 == a && es[i].1 == b && es[i].2 != 0,
        )
    } else {
        None
    }
}

/// The graph after folding in the debt `d`: its persons get nodes, and its
/// amount goes onto the edge between them, which is made if missing.
pub open spec fn record_spec(m: (Nodes, Edges), d: Debt) -> (Nodes, Edges) {
    let ns1 = with_node(m.0, d.0);
    let a = node_index(ns1, d.0);
    let ns2 = with_node(ns1, d.1);
    let b = node_index(ns2, d.1);
    match find_spec(m.1, a as usize, b as usize) {
        Some(e) => (ns2, set_w(m.1, e, (m.1[e].2 + d.2) as i32)),
        None => (ns2, m.1.push((a as usize, b as usize, d.2 as i32))),
    }
}

/// The graph built from the debts `ds`, in order.
pub open spec fn build_spec(ds: Seq<Debt>) -> (Nodes, Edges)
    decreases ds.len(),
{
    if ds.len() == 0 {
        (Seq::empty(), Seq::empty())
    } else {
        record_spec(build_spec(ds.drop_last()), ds.last())
    }
}

/// Nets edge `e`, where its weight is nonzero, against its reverse of
/// nonzero weight, if it has one: the larger keeps the difference, the
/// smaller goes to zero.
pub open spec fn cancel_step(es: Edges, e: int) -> Edges {
    if e < 0 || e >= es.len() || es[e].2 == 0 {
        es
    } else {
        let s = es[e].0;
        let t = es[e].1;
        match live_spec(es, t, s) {
            None => es,
            Some(e2) => {
                let w1 = es[e].2;
                let w2 = es[e2].2;
                if w1 > w2 {
                    set_w(set_w(es, e, (w1 - w2) as i32), e2, 0)
                } else if w1 < w2 {
                    set_w(set_w(es, e2, (w2 - w1) as i32), e, 0)
                } else {
                    set_w(set_w(es, e, 0), e2, 0)
                }
            },
        }
    }
}

/// Cancels each edge index from `e` up to `n`, in order.
pub open spec fn cancel_from(es: Edges, e: int, n: int) -> Edges
    decreases n - e,
{
    if e >= n {
        es
    } else {
        cancel_from(cancel_step(es, e), e + 1, n)
    }
}

/// Reroutes edge `e` (from `s` to `t`) through node `n`, given edge `a` from
/// `s` to `n` and edge `b` from `t` to `n`; `None` where a weight would leave
/// `i32` or the graph has no room for a new edge.
pub open spec fn reroute_spec(es: Edges, e: int, a: int, b: int, t: usize, n: usize) -> Option<Edges> {
    let w = es[e].2;
    let sw = es[a].2;
    let tw = es[b].2;
    if w == 0 || sw > i32::MAX - w {
        None
    } else if tw > w {
        Some(set_w(set_w(set_w(es, a, (sw + w) as i32), b, (tw - w) as i32), e, 0))
    } else {
        let rest = w - tw;
        let added: Option<Edges> = if rest > 0 {
            match live_spec(es, n, t) {
                Some(c) => if es[c].2 > i32::MAX - rest {
                    None
                } else {
                    Some(set_w(es, c, (es[c].2 + rest) as i32))
                },
                None => if es.len() >= EDGE_LIMIT {
                    None
                } else {
                    Some(es.push((n, t, rest as i32)))
                },
            }
        } else {
            Some(es)
        };
        match added {
            Some(es1) => Some(set_w(set_w(set_w(es1, a, (sw + w) as i32), b, 0), e, 0)),
            None => None,
        }
    }
}

/// Tries nodes `node`, `node + 1`, ... below `m` as the node to reroute edge
/// `e` (from `s` to `t`) through, and applies the first that fits.
pub open spec fn reroute_from(m: int, es: Edges, e: int, s: usize, t: usize, node: int) -> Edges
    decreases m - node,
{
    if node >= m {
        es
    } else {
        let n = node as usize;
        let tried: Option<Edges> = if n != s && n != t {
            match (live_spec(es, s, n), live_spec(es, t, n)) {
                (Some(a), Some(b)) => reroute_spec(es, e, a, b, t, n),
                _ => None,
            }
        } else {
            None
        };
        match tried {
            Some(r) => r,
            None => reroute_from(m, es, e, s, t, node + 1),
        }
    }
}

/// Reroutes edge `e` through the first node that fits, in a graph of `m` nodes.
pub open spec fn reroute_edge_spec(m: int, es: Edges, e: int) -> Edges {
    if 0 <= e < es.len() {
        reroute_from(m, es, e, es[e].0, es[e].1, 0)
    } else {
        es
    }
}

/// Reroutes each edge index from `e` up to `n`, in order.
pub open spec fn sweep_from(m: int, es: Edges, e: int, n: int) -> Edges
    decreases n - e,
{
    if e >= n {
        es
    } else {
        sweep_from(m, reroute_edge_spec(m, es, e), e + 1, n)
    }
}

/// Sweeps of rerouting, for as long as each lowers the number of edges of
/// nonzero weight.
pub open spec fn reroute_pass(m: int, es: Edges) -> Edges
    decreases count_live(es),
{
    let c = count_live(es);
    let es2 = sweep_from(m, es, 0, es.len() as int);
    let c2 = count_live(es2);
    if c2 >= c || c2 == 0 || c == 0 {
        es2
    } else {
        reroute_pass(m, es2)
    }
}

/// Collapses edge `e` (from `s` to `t`) and edge `f` (from `t` to `n`), of
/// equal weight, into a debt of `s` to `n`; `None` where a weight would leave
/// `i32` or the graph has no room for a new edge.
pub open spec fn collapse_spec(es: Edges, e: int, f: int, s: usize, n: usize) -> Option<Edges> {
    let w = es[e].2;
    let added: Option<Edges> = match live_spec(es, s, n) {
        Some(c) => if es[c].2 > i32::MAX - w {
            None
        } else {
            Some(set_w(es, c, (es[c].2 + w) as i32))
        },
        None => if es.len() >= EDGE_LIMIT {
            None
        } else {
            Some(es.push((s, n, w)))
        },
    };
    match added {
        Some(es1) => Some(set_w(set_w(es1, e, 0), f, 0)),
        None => None,
    }
}

/// Tries nodes `node`, `node + 1`, ... below `m` for an edge from `t` of
/// weight `w` to collapse edge `e` (from `s` to `t`) with.
pub open spec fn collapse_from(m: int, es: Edges, e: int, s: usize, t: usize, w: i32, node: int) -> Edges
    decreases m - node,
{
    if node >= m {
        es
    } else {
        let n = node as usize;
        let tried: Option<Edges> = if n != s {
            match live_spec(es, t, n) {
                Some(f) => if es[f].2 == w {
                    collapse_spec(es, e, f, s, n)
                } else {
                    None
                },
                None => None,
            }
        } else {
            None
        };
        match tried {
            Some(r) => r,
            None => collapse_from(m, es, e, s, t, w, node + 1),
        }
    }
}

/// Collapses edge `e` with the first fitting edge, in a graph of `m` nodes.
pub open spec fn collapse_edge_spec(m: int, es: Edges, e: int) -> Edges {
    if 0 <= e < es.len() && es[e].2 != 0 {
        collapse_from(m, es, e, es[e].0, es[e].1, es[e].2, 0)
    } else {
        es
    }
}

/// Collapses each edge index from `e` up to `n`, in order.
pub open spec fn collapse_sweep(m: int, es: Edges, e: int, n: int) -> Edges
    decreases n - e,
{
    if e >= n {
        es
    } else {
        collapse_sweep(m, collapse_edge_spec(m, es, e), e + 1, n)
    }
}

/// Adds to `acc` the edges of nonzero weight among those from index `e` on,
/// with nodes for their labels.
pub open spec fn compact_from(ns: Nodes, es: Edges, e: int, acc: (Nodes, Edges)) -> (Nodes, Edges)
    decreases es.len() - e,
{
    if e < 0 || e >= es.len() {
        acc
    } else {
        let x = es[e];
        let next = if x.2 != 0 {
            let ls = ns[x.0 as int];
            let lt = ns[x.1 as int];
            let ns1 = with_node(acc.0, ls);
            let a = node_index(ns1, ls);
            let ns2 = with_node(ns1, lt);
            let b = node_index(ns2, lt);
            (ns2, acc.1.push((a as usize, b as usize, x.2)))
        } else {
            acc
        };
        compact_from(ns, es, e + 1, next)
    }
}

/// What the solver returns for the graph `m0`: its edges through the four
/// passes, as a list of debts.
pub open spec fn reduce(m0: (Nodes, Edges)) -> Seq<Debt> {
    let nl = m0.0.len() as int;
    let e1 = cancel_from(m0.1, 0, m0.1.len() as int);
    let e2 = reroute_pass(nl, e1);
    let e3 = collapse_sweep(nl, e2, 0, e2.len() as int);
    let m4 = compact_from(m0.0, e3, 0, (Seq::empty(), Seq::empty()));
    debts_of_edges(m4.0, m4.1)
}

/// What the solver returns for the debts `ds`: the graph built from them,
/// through the four passes, as a list of debts.
pub open spec fn settlement(ds: Seq<Debt>) -> Seq<Debt> {
    reduce(build_spec(ds))
}

} // verus!
