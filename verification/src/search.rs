//! Depth-bounded best-output cycle search.
//!
//! The search walks the swap graph from the sentinel start node and looks
//! for the walk of at most [`MAX_NUM_SWAPS`] edges ending at the traded
//! token's node that maximises the running output for a given input. A
//! `(node, depth)` memo prunes re-visits that cannot improve on an earlier
//! weight. The walk may not reuse an edge. A pool with no liquidity on the
//! relevant side weighs zero and is thereby unroutable, not an error; any
//! other pricing failure aborts the search.

use vstd::prelude::*;
use crate::address::Address;
use crate::graph::{
    amounts_out_spec, edge_ok, label_slot_from, lookup_of, node_slot, resolve_lookup_spec, Path,
    PairLookup, SwapGraph,
};
use crate::pair::{ArbitrageError, Pair};
use crate::registry::PairRegistry;
use crate::pgraph::{
    graph_edge_weight, graph_edges, graph_edges_from, graph_node_weight,
    lemma_outgoing_rev_complete, lemma_outgoing_rev_sound, outgoing_rev,
};

verus! {

/// Bound on the number of edges of a searched cycle.
pub const MAX_NUM_SWAPS: usize = 4;

/// A search state: the nodes visited, the edges taken, and the running
/// output weight.
#[derive(Debug)]
pub struct SearchPath {
    /// Visited node indices, starting at the start node.
    pub token_order: Vec<usize>,
    /// Edge indices taken, one fewer than the nodes.
    pub pair_order: Vec<usize>,
    /// The running output amount.
    pub weight: u128,
}

impl SearchPath {
    /// An empty state carrying only a weight.
    pub fn new(weight: u128) -> (r: SearchPath)
        ensures
            r.token_order@.len() == 0,
            r.pair_order@.len() == 0,
            r.weight == weight,
    {
        SearchPath { token_order: Vec::new(), pair_order: Vec::new(), weight }
    }
}

/// Edge `e` leads from node `a` to node `b`.
pub open spec fn edge_step(g: SwapGraph, a: usize, e: usize, b: usize) -> bool {
    &&& (e as int) < graph_edges(g.g).len()
    &&& graph_edges(g.g)[e as int].0 == a
    &&& graph_edges(g.g)[e as int].1 == b
}

/// `tokens` and `edges` form a real walk from the start node: consecutive
/// nodes are joined by the named edges, all indices are in range, and no
/// edge repeats.
pub open spec fn walk_ok(g: SwapGraph, tokens: Seq<usize>, edges: Seq<usize>) -> bool {
    &&& tokens.len() == edges.len() + 1
    &&& tokens[0] == 0usize
    &&& forall|i: int| 0 <= i < tokens.len() ==> (#[trigger] tokens[i] as int) < g.labels@.len()
    &&& forall|i: int| 0 <= i < edges.len() ==> edge_step(g, tokens[i], #[trigger] edges[i], tokens[i + 1])
    &&& forall|i: int, j: int|
        0 <= i < j < edges.len() ==> #[trigger] edges[i] != #[trigger] edges[j]
}

/// The running output of a walk: each edge prices the current amount
/// through its pair, with the source node's label as the input token.
pub open spec fn walk_weight(g: SwapGraph, tokens: Seq<usize>, edges: Seq<usize>, input: u128) -> Result<
    u128,
    ArbitrageError,
>
    decreases edges.len(),
{
    if edges.len() == 0 {
        Ok(input)
    } else {
        let tr = graph_edges(g.g)[edges[0] as int];
        let p = g.pairs@[tr.2 as int];
        match p.weight_of(g.labels@[tokens[0] as int], input as int) {
            Err(er) => Err(er),
            Ok(w1) => walk_weight(g, tokens.drop_first(), edges.drop_first(), w1),
        }
    }
}

/// A recorded winner: a real walk of one to [`MAX_NUM_SWAPS`] edges from
/// the start node to `goal` whose output beats the input.
pub open spec fn winning_state(g: SwapGraph, goal: usize, input: u128, sp: SearchPath) -> bool {
    &&& walk_ok(g, sp.token_order@, sp.pair_order@)
    &&& 1 <= sp.pair_order@.len() <= MAX_NUM_SWAPS
    &&& sp.token_order@.last() == goal
    &&& walk_weight(g, sp.token_order@, sp.pair_order@, input) == Ok::<u128, ArbitrageError>(
        sp.weight,
    )
    &&& sp.weight > input
}

/// What the best-so-far state always satisfies: still the empty state at
/// the input weight, or a recorded winner.
pub open spec fn best_inv(g: SwapGraph, goal: usize, input: u128, sp: SearchPath) -> bool {
    ||| (sp.token_order@.len() == 0 && sp.pair_order@.len() == 0 && sp.weight == input)
    ||| winning_state(g, goal, input, sp)
}

/// The memo table has one row per depth and one cell per node.
pub open spec fn seen_ok(t: Seq<Vec<Option<u128>>>, g: SwapGraph) -> bool {
    &&& t.len() == MAX_NUM_SWAPS + 2
    &&& forall|d: int| 0 <= d < t.len() ==> (#[trigger] t[d])@.len() == g.labels@.len()
}

/// Every pair of the graph's build input is well-formed.
pub open spec fn graph_pairs_wf(g: SwapGraph) -> bool {
    forall|k: int| 0 <= k < g.pairs@.len() ==> (#[trigger] g.pairs@[k]).wf()
}

/// Reserves up to this bound can never overflow a quote whose input also
/// stays within it: every intermediate product is far below 128 bits.
pub const PRICE_CAP: u128 = 0x100_0000_0000_0000;

/// Every pool the graph was built from keeps both reserves within
/// [`PRICE_CAP`].
pub open spec fn price_safe(g: SwapGraph) -> bool {
    forall|k: int|
        0 <= k < g.pairs@.len() ==> (#[trigger] g.pairs@[k]).reserve0 <= PRICE_CAP
            && g.pairs@[k].reserve1 <= PRICE_CAP
}

/// A capped pool never fails a capped quote hard: the weight is the quote,
/// or the softened zero, and stays within the cap itself.
pub proof fn lemma_weight_of_safe(p: Pair, token: Address, x: u128)
    requires
        p.wf(),
        token == p.token0 || token == p.token1,
        x <= PRICE_CAP,
        p.reserve0 <= PRICE_CAP,
        p.reserve1 <= PRICE_CAP,
    ensures
        p.weight_of(token, x as int) is Ok,
        p.weight_of(token, x as int)->Ok_0 <= PRICE_CAP,
{
    let rin: int = if token == p.token0 {
        p.reserve0 as int
    } else {
        p.reserve1 as int
    };
    let rout: int = if token == p.token0 {
        p.reserve1 as int
    } else {
        p.reserve0 as int
    };
    let f = 10000 - p.fee as int;
    assert(x * f <= u128::MAX && x * f * rout <= u128::MAX && rin * 10000 <= u128::MAX && x * f
        + rin * 10000 <= u128::MAX) by (nonlinear_arith)
        requires
            0 <= x <= 0x100_0000_0000_0000,
            0 <= rin <= 0x100_0000_0000_0000,
            0 <= rout <= 0x100_0000_0000_0000,
            0 <= f <= 10000,
    ;
    if rin > 0 && rout > 0 {
        crate::math::lemma_amount_out_lt_rout(rin, rout, x as int, p.fee as int);
    }
}

/// On a capped graph every walk from a capped input prices cleanly, and
/// its running weight never leaves the cap.
pub proof fn lemma_walk_weight_safe(
    g: SwapGraph,
    tokens: Seq<usize>,
    edges: Seq<usize>,
    input: u128,
)
    requires
        g.wf(),
        graph_pairs_wf(g),
        price_safe(g),
        input <= PRICE_CAP,
        tokens.len() == edges.len() + 1,
        forall|i: int| 0 <= i < tokens.len() ==> (#[trigger] tokens[i] as int) < g.labels@.len(),
        forall|i: int|
            0 <= i < edges.len() ==> edge_step(g, tokens[i], #[trigger] edges[i], tokens[i + 1]),
    ensures
        walk_weight(g, tokens, edges, input) is Ok,
        walk_weight(g, tokens, edges, input)->Ok_0 <= PRICE_CAP,
    decreases edges.len(),
{
    if edges.len() > 0 {
        let tr = graph_edges(g.g)[edges[0] as int];
        let p = g.pairs@[tr.2 as int];
        let lbl = g.labels@[tokens[0] as int];
        assert(edge_ok(g.labels@, g.pairs@, tr));
        lemma_weight_of_safe(p, lbl, input);
        let w1 = p.weight_of(lbl, input as int)->Ok_0;
        let tokens2 = tokens.drop_first();
        let edges2 = edges.drop_first();
        assert forall|i: int|
            0 <= i < tokens2.len() implies (#[trigger] tokens2[i] as int) < g.labels@.len() by {
            assert(tokens2[i] == tokens[i + 1]);
        }
        assert forall|i: int|
            0 <= i < edges2.len() implies edge_step(
            g,
            tokens2[i],
            #[trigger] edges2[i],
            tokens2[i + 1],
        ) by {
            assert(tokens2[i] == tokens[i + 1]);
            assert(edges2[i] == edges[i + 1]);
            assert(tokens2[i + 1] == tokens[i + 2]);
        }
        lemma_walk_weight_safe(g, tokens2, edges2, w1);
    }
}

/// Within the cap, a larger amount never weighs less through the same
/// pool: the exact-in quote is monotone, and the softened zero is common
/// to both sides, since liquidity does not depend on the amount.
pub proof fn lemma_weight_of_monotone(p: Pair, token: Address, x1: u128, x2: u128)
    requires
        p.wf(),
        token == p.token0 || token == p.token1,
        x1 <= x2,
        x2 <= PRICE_CAP,
        p.reserve0 <= PRICE_CAP,
        p.reserve1 <= PRICE_CAP,
    ensures
        p.weight_of(token, x1 as int)->Ok_0 <= p.weight_of(token, x2 as int)->Ok_0,
{
    lemma_weight_of_safe(p, token, x1);
    lemma_weight_of_safe(p, token, x2);
    let rin: int = if token == p.token0 {
        p.reserve0 as int
    } else {
        p.reserve1 as int
    };
    let rout: int = if token == p.token0 {
        p.reserve1 as int
    } else {
        p.reserve0 as int
    };
    if rin > 0 && rout > 0 {
        crate::math::lemma_amount_out_monotone(rin, rout, p.fee as int, x1 as int, x2 as int);
    }
}

/// The weight one edge gives to an amount arriving at its source node.
pub open spec fn step_weight(g: SwapGraph, from: usize, e: usize, w: u128) -> u128 {
    let tr = graph_edges(g.g)[e as int];
    g.pairs@[tr.2 as int].weight_of(g.labels@[from as int], w as int)->Ok_0
}

/// The output of the direct cycle taking start edge `e1` and then edge
/// `e2` back to the traded token's node.
pub open spec fn two_hop_weight(g: SwapGraph, e1: usize, e2: usize, input: u128) -> u128 {
    let x = graph_edges(g.g)[e1 as int].1;
    step_weight(g, x, e2, step_weight(g, 0usize, e1, input))
}

/// Every recorded weight at the memo's depth-one row keeps its promise:
/// taking any single edge from that node straight to the goal cannot beat
/// the best weight, and the recorded weight itself is within the cap.
pub open spec fn covered_direct(
    g: SwapGraph,
    goal: usize,
    row: Seq<Option<u128>>,
    best_w: u128,
) -> bool {
    forall|x: int, e: int|
        #![trigger row[x], graph_edges(g.g)[e]]
        0 <= x < row.len() && row[x] is Some && 0 <= e < graph_edges(g.g).len() && graph_edges(
            g.g,
        )[e].0 == x && graph_edges(g.g)[e].1 == goal ==> row[x]->Some_0 <= PRICE_CAP
            && step_weight(g, x as usize, e as usize, row[x]->Some_0) <= best_w
}

/// A memo table with nothing recorded yet.
pub open spec fn fresh_table(t: Seq<Vec<Option<u128>>>) -> bool {
    forall|d: int, x: int|
        #![trigger t[d]@[x]]
        0 <= d < t.len() && 0 <= x < t[d]@.len() ==> t[d]@[x] is None
}

/// Extending a walk by one edge extends its weight chain by one pricing
/// step on the last node's label.
pub proof fn lemma_walk_weight_snoc(
    g: SwapGraph,
    tokens: Seq<usize>,
    edges: Seq<usize>,
    input: u128,
    n: usize,
    e: usize,
)
    requires
        tokens.len() == edges.len() + 1,
    ensures
        walk_weight(g, tokens.push(n), edges.push(e), input) == {
            let tr = graph_edges(g.g)[e as int];
            let p = g.pairs@[tr.2 as int];
            match walk_weight(g, tokens, edges, input) {
                Err(er) => Err::<u128, ArbitrageError>(er),
                Ok(w) => p.weight_of(g.labels@[tokens.last() as int], w as int),
            }
        },
    decreases edges.len(),
{
    let tr = graph_edges(g.g)[e as int];
    let p = g.pairs@[tr.2 as int];
    if edges.len() == 0 {
        assert(edges.push(e)[0] == e);
        assert(tokens.push(n)[0] == tokens[0]);
        assert(tokens[0] == tokens.last());
        match p.weight_of(g.labels@[tokens[0] as int], input as int) {
            Err(er) => {},
            Ok(w1) => {
                assert(tokens.push(n).drop_first() =~= seq![n]);
                assert(edges.push(e).drop_first() =~= Seq::<usize>::empty());
                assert(walk_weight(g, seq![n], Seq::<usize>::empty(), w1) == Ok::<
                    u128,
                    ArbitrageError,
                >(w1));
            },
        }
    } else {
        assert(edges.push(e)[0] == edges[0]);
        assert(tokens.push(n)[0] == tokens[0]);
        let tr0 = graph_edges(g.g)[edges[0] as int];
        let p0 = g.pairs@[tr0.2 as int];
        match p0.weight_of(g.labels@[tokens[0] as int], input as int) {
            Err(er) => {},
            Ok(w1) => {
                assert(tokens.push(n).drop_first() =~= tokens.drop_first().push(n));
                assert(edges.push(e).drop_first() =~= edges.drop_first().push(e));
                lemma_walk_weight_snoc(g, tokens.drop_first(), edges.drop_first(), w1, n, e);
                assert(tokens.drop_first().last() == tokens.last());
            },
        }
    }
}

/// Copy a list of indices.
fn clone_indices(v: &Vec<usize>) -> (r: Vec<usize>)
    ensures
        r@ == v@,
{
    let mut out: Vec<usize> = Vec::new();
    let mut i: usize = 0;
    while i < v.len()
        invariant
            i <= v@.len(),
            out@ == v@.take(i as int),
        decreases v@.len() - i,
    {
        out.push(v[i]);
        proof {
            assert(v@.take(i + 1) =~= v@.take(i as int).push(v@[i as int]));
        }
        i = i + 1;
    }
    proof {
        assert(v@.take(v@.len() as int) =~= v@);
    }
    out
}

/// Whether the list holds the index.
fn contains_index(v: &Vec<usize>, e: usize) -> (r: bool)
    ensures
        r == v@.contains(e),
{
    let mut i: usize = 0;
    while i < v.len()
        invariant
            i <= v@.len(),
            forall|k: int| 0 <= k < i ==> v@[k] != e,
        decreases v@.len() - i,
    {
        if v[i] == e {
            return true;
        }
        i = i + 1;
    }
    false
}

/// Write one memo cell.
fn set_cell(table: &mut Vec<Vec<Option<u128>>>, d: usize, node: usize, v: u128)
    requires
        d < old(table)@.len(),
        node < old(table)@[d as int]@.len(),
    ensures
        final(table)@.len() == old(table)@.len(),
        forall|i: int|
            0 <= i < final(table)@.len() && i != d ==> (#[trigger] final(table)@[i])@ == old(
                table,
            )@[i]@,
        final(table)@[d as int]@ == old(table)@[d as int]@.update(node as int, Some(v)),
{
    let mut row = table.remove(d);
    row.set(node, Some(v));
    table.insert(d, row);
    proof {
        assert(table@ =~= old(table)@.update(d as int, table@[d as int]));
    }
}

/// One step of the depth-first walk. Records the state when it reaches the
/// goal with a better weight; prunes on depth and on the `(node, depth)`
/// memo; otherwise extends the walk along every outgoing edge not already
/// taken. A hard pricing error aborts the whole search; within the price
/// cap no such error exists. A visit one hop from the start leaves its
/// promise behind: every single edge from its node straight to the goal
/// has been weighed against the best, which is what makes the depth-one
/// memo prune safe for direct cycles.
#[verifier::rlimit(100)]
fn search_visit(
    g: &SwapGraph,
    goal: usize,
    cur: SearchPath,
    seen: &mut Vec<Vec<Option<u128>>>,
    best: &mut SearchPath,
    input: Ghost<u128>,
) -> (r: Result<(), ArbitrageError>)
    requires
        g.wf(),
        graph_pairs_wf(*g),
        1 <= goal < g.labels@.len(),
        walk_ok(*g, cur.token_order@, cur.pair_order@),
        cur.pair_order@.len() <= MAX_NUM_SWAPS + 1,
        walk_weight(*g, cur.token_order@, cur.pair_order@, input@) == Ok::<u128, ArbitrageError>(
            cur.weight,
        ),
        best_inv(*g, goal, input@, *old(best)),
        seen_ok(old(seen)@, *g),
        price_safe(*g) && input@ <= PRICE_CAP && cur.pair_order@.len() <= 1 ==> covered_direct(
            *g,
            goal,
            old(seen)@[1]@,
            old(best).weight,
        ),
    ensures
        best_inv(*g, goal, input@, *final(best)),
        seen_ok(final(seen)@, *g),
        final(best).weight >= old(best).weight,
        r is Err ==> r->Err_0 == ArbitrageError::MathOverflow || r->Err_0
            == ArbitrageError::MathUnderflow,
        price_safe(*g) && input@ <= PRICE_CAP ==> r is Ok,
        cur.pair_order@.len() <= MAX_NUM_SWAPS && cur.token_order@.last() == goal ==> cur.weight
            <= final(best).weight,
        cur.pair_order@.len() >= 2 ==> final(seen)@[1]@ == old(seen)@[1]@,
        cur.pair_order@.len() == 1 ==> final(seen)@[1]@ == old(seen)@[1]@ || final(seen)@[1]@
            == old(seen)@[1]@.update(cur.token_order@.last() as int, Some(cur.weight)),
        price_safe(*g) && input@ <= PRICE_CAP && cur.pair_order@.len() == 1 ==> forall|e: int|
            #![trigger graph_edges(g.g)[e]]
            0 <= e < graph_edges(g.g).len() && graph_edges(g.g)[e].0 == cur.token_order@.last()
                && graph_edges(g.g)[e].1 == goal ==> step_weight(
                *g,
                cur.token_order@.last(),
                e as usize,
                cur.weight,
            ) <= final(best).weight,
        price_safe(*g) && input@ <= PRICE_CAP && cur.pair_order@.len() == 0 && fresh_table(
            old(seen)@,
        ) ==> forall|e1: int, e2: int|
            #![trigger graph_edges(g.g)[e1], graph_edges(g.g)[e2]]
            0 <= e1 < graph_edges(g.g).len() && 0 <= e2 < graph_edges(g.g).len() && graph_edges(
                g.g,
            )[e1].0 == 0usize && graph_edges(g.g)[e1].1 != goal && graph_edges(g.g)[e2].0
                == graph_edges(g.g)[e1].1 && graph_edges(g.g)[e2].1 == goal ==> two_hop_weight(
                *g,
                e1 as usize,
                e2 as usize,
                input@,
            ) <= final(best).weight,
    decreases MAX_NUM_SWAPS + 2 - cur.pair_order@.len(),
{
    if cur.pair_order.len() > MAX_NUM_SWAPS {
        return Ok(());
    }
    let cur_node = cur.token_order[cur.token_order.len() - 1];
    if cur_node == goal {
        if cur.weight > best.weight {
            proof {
                if cur.pair_order@.len() == 0 {
                    assert(cur.token_order@.last() == cur.token_order@[0]);
                }
            }
            *best = cur;
        }
        proof {
            assert forall|e: int|
                #![trigger graph_edges(g.g)[e]]
                0 <= e < graph_edges(g.g).len() && graph_edges(g.g)[e].0 == goal && graph_edges(
                    g.g,
                )[e].1 == goal implies false by {
                assert(edge_ok(g.labels@, g.pairs@, graph_edges(g.g)[e]));
            }
        }
        return Ok(());
    }
    let depth = cur.pair_order.len();
    let node_entry = seen[depth][cur_node];
    match node_entry {
        Some(w) => {
            if w >= cur.weight {
                proof {
                    if price_safe(*g) && input@ <= PRICE_CAP && cur.pair_order@.len() == 1 {
                        lemma_walk_weight_safe(*g, cur.token_order@, cur.pair_order@, input@);
                        assert forall|e: int|
                            #![trigger graph_edges(g.g)[e]]
                            0 <= e < graph_edges(g.g).len() && graph_edges(g.g)[e].0
                                == cur.token_order@.last() && graph_edges(g.g)[e].1
                                == goal implies step_weight(
                            *g,
                            cur.token_order@.last(),
                            e as usize,
                            cur.weight,
                        ) <= best.weight by {
                            assert(old(seen)@[1]@[cur_node as int] == Some(w));
                            let tr = graph_edges(g.g)[e];
                            assert(edge_ok(g.labels@, g.pairs@, tr));
                            lemma_weight_of_monotone(
                                g.pairs@[tr.2 as int],
                                g.labels@[cur_node as int],
                                cur.weight,
                                w,
                            );
                        }
                    }
                }
                return Ok(());
            }
        },
        None => {},
    }
    set_cell(seen, depth, cur_node, cur.weight);
    let succs = graph_edges_from(&g.g, cur_node);
    proof {
        lemma_outgoing_rev_sound(graph_edges(g.g), cur_node);
        if price_safe(*g) && input@ <= PRICE_CAP {
            lemma_walk_weight_safe(*g, cur.token_order@, cur.pair_order@, input@);
        }
    }
    let mut si: usize = 0;
    while si < succs.len()
        invariant
            g.wf(),
            graph_pairs_wf(*g),
            1 <= goal < g.labels@.len(),
            walk_ok(*g, cur.token_order@, cur.pair_order@),
            cur.pair_order@.len() <= MAX_NUM_SWAPS,
            walk_weight(*g, cur.token_order@, cur.pair_order@, input@) == Ok::<
                u128,
                ArbitrageError,
            >(cur.weight),
            cur.token_order@.last() == cur_node,
            cur_node != goal,
            depth == cur.pair_order@.len(),
            best_inv(*g, goal, input@, *best),
            best.weight >= old(best).weight,
            seen_ok(seen@, *g),
            seen_ok(old(seen)@, *g),
            succs@ == outgoing_rev(graph_edges(g.g), cur_node),
            si <= succs@.len(),
            price_safe(*g) && input@ <= PRICE_CAP ==> cur.weight <= PRICE_CAP,
            depth == 1 ==> seen@[1]@ == old(seen)@[1]@.update(
                cur_node as int,
                Some(cur.weight),
            ),
            depth >= 2 ==> seen@[1]@ == old(seen)@[1]@,
            price_safe(*g) && input@ <= PRICE_CAP && depth == 1 ==> forall|e: int|
                #![trigger graph_edges(g.g)[e]]
                0 <= e < graph_edges(g.g).len() && graph_edges(g.g)[e].0 == cur_node
                    && graph_edges(g.g)[e].1 == goal && (exists|j: int|
                    0 <= j < si && (#[trigger] succs@[j]).0 == e as usize) ==> step_weight(
                    *g,
                    cur_node,
                    e as usize,
                    cur.weight,
                ) <= best.weight,
            price_safe(*g) && input@ <= PRICE_CAP && depth == 0 ==> covered_direct(
                *g,
                goal,
                seen@[1]@,
                best.weight,
            ),
            price_safe(*g) && input@ <= PRICE_CAP && depth == 0 ==> forall|e1: int, e2: int|
                #![trigger graph_edges(g.g)[e1], graph_edges(g.g)[e2]]
                0 <= e1 < graph_edges(g.g).len() && 0 <= e2 < graph_edges(g.g).len()
                    && graph_edges(g.g)[e1].0 == 0usize && graph_edges(g.g)[e1].1 != goal
                    && graph_edges(g.g)[e2].0 == graph_edges(g.g)[e1].1 && graph_edges(g.g)[e2].1
                    == goal && (exists|j: int|
                    0 <= j < si && (#[trigger] succs@[j]).0 == e1 as usize) ==> two_hop_weight(
                    *g,
                    e1 as usize,
                    e2 as usize,
                    input@,
                ) <= best.weight,
        decreases succs@.len() - si,
    {
        proof {
            lemma_outgoing_rev_sound(graph_edges(g.g), cur_node);
        }
        let (e, nxt, widx) = succs[si];
        let ghost best_before = best.weight;
        if !contains_index(&cur.pair_order, e) {
            proof {
                assert(graph_edges(g.g)[e as int] == (cur_node, nxt, widx));
                assert(edge_ok(g.labels@, g.pairs@, graph_edges(g.g)[e as int]));
            }
            let p = g.pairs[widx as usize];
            let token = g.labels[cur_node];
            let w2 = match p.calculate_weight(token, cur.weight) {
                Ok(w2) => w2,
                Err(er) => {
                    proof {
                        if price_safe(*g) && input@ <= PRICE_CAP {
                            lemma_weight_of_safe(g.pairs@[widx as int], token, cur.weight);
                            assert(false);
                        }
                    }
                    return Err(er);
                },
            };
            let mut ntokens = clone_indices(&cur.token_order);
            let mut nedges = clone_indices(&cur.pair_order);
            ntokens.push(nxt);
            nedges.push(e);
            let next = SearchPath { token_order: ntokens, pair_order: nedges, weight: w2 };
            proof {
                lemma_walk_weight_snoc(*g, cur.token_order@, cur.pair_order@, input@, nxt, e);
                assert forall|i: int|
                    0 <= i < next.pair_order@.len() implies edge_step(
                    *g,
                    next.token_order@[i],
                    #[trigger] next.pair_order@[i],
                    next.token_order@[i + 1],
                ) by {
                    if i < cur.pair_order@.len() {
                        assert(next.token_order@[i] == cur.token_order@[i]);
                        assert(next.pair_order@[i] == cur.pair_order@[i]);
                        assert(next.token_order@[i + 1] == cur.token_order@[i + 1]);
                    } else {
                        assert(next.token_order@[i] == cur.token_order@.last());
                        assert(next.pair_order@[i] == e);
                        assert(next.token_order@[i + 1] == nxt);
                    }
                }
                assert(walk_ok(*g, next.token_order@, next.pair_order@));
                if price_safe(*g) && input@ <= PRICE_CAP {
                    lemma_weight_of_safe(g.pairs@[widx as int], token, cur.weight);
                }
            }
            let ghost seen_before = seen@;
            match search_visit(g, goal, next, seen, best, input) {
                Ok(()) => {},
                Err(er) => {
                    return Err(er);
                },
            }
            proof {
                if price_safe(*g) && input@ <= PRICE_CAP {
                    if depth == 0 {
                        assert(cur.weight == input@);
                        assert(step_weight(*g, cur_node, e as usize, cur.weight) == w2);
                        assert forall|x: int, ee: int|
                            #![trigger seen@[1]@[x], graph_edges(g.g)[ee]]
                            0 <= x < seen@[1]@.len() && seen@[1]@[x] is Some && 0 <= ee
                                < graph_edges(g.g).len() && graph_edges(g.g)[ee].0 == x
                                && graph_edges(g.g)[ee].1 == goal implies seen@[1]@[x]->Some_0
                            <= PRICE_CAP && step_weight(
                            *g,
                            x as usize,
                            ee as usize,
                            seen@[1]@[x]->Some_0,
                        ) <= best.weight by {
                            if seen@[1]@ == seen_before[1]@ {
                                assert(seen_before[1]@[x] is Some);
                            } else {
                                assert(seen@[1]@ == seen_before[1]@.update(
                                    nxt as int,
                                    Some(w2),
                                ));
                                if x == nxt as int {
                                } else {
                                    assert(seen@[1]@[x] == seen_before[1]@[x]);
                                }
                            }
                        }
                        if graph_edges(g.g)[e as int].1 != goal {
                            assert forall|e2: int|
                                #![trigger graph_edges(g.g)[e2]]
                                0 <= e2 < graph_edges(g.g).len() && graph_edges(g.g)[e2].0 == nxt
                                    && graph_edges(g.g)[e2].1 == goal implies two_hop_weight(
                                *g,
                                e as usize,
                                e2 as usize,
                                input@,
                            ) <= best.weight by {
                                assert(step_weight(*g, nxt, e2 as usize, w2)
                                    <= best.weight);
                            }
                        }
                    }
                    if depth == 1 && nxt == goal {
                        assert(step_weight(*g, cur_node, e as usize, cur.weight) == w2);
                        assert(w2 <= best.weight);
                    }
                }
            }
        } else {
            proof {
                if depth == 1 {
                    assert(graph_edges(g.g)[e as int].0 == cur_node);
                    assert(cur.pair_order@.contains(e));
                    let j0 = choose|j0: int|
                        0 <= j0 < cur.pair_order@.len() && cur.pair_order@[j0] == e;
                    assert(edge_step(
                        *g,
                        cur.token_order@[0],
                        cur.pair_order@[0],
                        cur.token_order@[1],
                    ));
                    assert(graph_edges(g.g)[e as int].0 == cur.token_order@[0]);
                    assert(edge_ok(g.labels@, g.pairs@, graph_edges(
                        g.g,
                    )[cur.pair_order@[0] as int]));
                    assert(cur.token_order@[1] as int >= 1);
                    assert(cur.token_order@.last() == cur.token_order@[1]);
                    assert(false);
                }
                if depth == 0 {
                    assert(cur.pair_order@.len() == 0);
                    assert(false);
                }
            }
        }
        si = si + 1;
        proof {
            if price_safe(*g) && input@ <= PRICE_CAP && depth == 1 {
                assert forall|ee: int|
                    #![trigger graph_edges(g.g)[ee]]
                    0 <= ee < graph_edges(g.g).len() && graph_edges(g.g)[ee].0 == cur_node
                        && graph_edges(g.g)[ee].1 == goal && (exists|j: int|
                        0 <= j < si && (#[trigger] succs@[j]).0 == ee as usize) implies step_weight(
                    *g,
                    cur_node,
                    ee as usize,
                    cur.weight,
                ) <= best.weight by {
                    let j = choose|j: int| 0 <= j < si && (#[trigger] succs@[j]).0 == ee as usize;
                    if j == si - 1 {
                        assert(ee as usize == e);
                        assert(graph_edges(g.g)[ee].1 == nxt);
                    }
                }
            }
            if price_safe(*g) && input@ <= PRICE_CAP && depth == 0 {
                assert forall|e1: int, e2: int|
                    #![trigger graph_edges(g.g)[e1], graph_edges(g.g)[e2]]
                    0 <= e1 < graph_edges(g.g).len() && 0 <= e2 < graph_edges(g.g).len()
                        && graph_edges(g.g)[e1].0 == 0usize && graph_edges(g.g)[e1].1 != goal
                        && graph_edges(g.g)[e2].0 == graph_edges(g.g)[e1].1 && graph_edges(
                        g.g,
                    )[e2].1 == goal && (exists|j: int|
                        0 <= j < si && (#[trigger] succs@[j]).0 == e1 as usize) implies
                    two_hop_weight(*g, e1 as usize, e2 as usize, input@) <= best.weight by {
                    let j = choose|j: int| 0 <= j < si && (#[trigger] succs@[j]).0 == e1 as usize;
                    if j == si - 1 {
                        assert(e1 as usize == e);
                        assert(graph_edges(g.g)[e1].1 == nxt);
                    }
                }
            }
        }
    }
    proof {
        if price_safe(*g) && input@ <= PRICE_CAP && depth == 1 {
            assert forall|e: int|
                #![trigger graph_edges(g.g)[e]]
                0 <= e < graph_edges(g.g).len() && graph_edges(g.g)[e].0
                    == cur.token_order@.last() && graph_edges(g.g)[e].1 == goal implies
                step_weight(*g, cur.token_order@.last(), e as usize, cur.weight)
                <= best.weight by {
                lemma_outgoing_rev_complete(graph_edges(g.g), cur_node, e);
                let entry = (
                    e as usize,
                    graph_edges(g.g)[e].1,
                    graph_edges(g.g)[e].2,
                );
                let j = choose|j: int| 0 <= j < succs@.len() && succs@[j] == entry;
                assert(succs@[j].0 == e as usize);
            }
        }
        if price_safe(*g) && input@ <= PRICE_CAP && depth == 0 {
            assert forall|e1: int, e2: int|
                #![trigger graph_edges(g.g)[e1], graph_edges(g.g)[e2]]
                0 <= e1 < graph_edges(g.g).len() && 0 <= e2 < graph_edges(g.g).len()
                    && graph_edges(g.g)[e1].0 == 0usize && graph_edges(g.g)[e1].1 != goal
                    && graph_edges(g.g)[e2].0 == graph_edges(g.g)[e1].1 && graph_edges(
                    g.g,
                )[e2].1 == goal implies two_hop_weight(*g, e1 as usize, e2 as usize, input@)
                <= best.weight by {
                lemma_outgoing_rev_complete(graph_edges(g.g), cur_node, e1);
                let entry = (
                    e1 as usize,
                    graph_edges(g.g)[e1].1,
                    graph_edges(g.g)[e1].2,
                );
                let j = choose|j: int| 0 <= j < succs@.len() && succs@[j] == entry;
                assert(succs@[j].0 == e1 as usize);
            }
        }
    }
    Ok(())
}

/// The lookups and labels a search result carries, read off the graph.
pub open spec fn path_matches(g: SwapGraph, path: Path, tokens: Seq<usize>, edges: Seq<usize>) -> bool {
    &&& path.token_order@ == Seq::new(tokens.len(), |i: int| g.labels@[tokens[i] as int])
    &&& path.pair_order@ == Seq::new(
        edges.len(),
        |i: int| lookup_of(g.pairs@[graph_edges(g.g)[edges[i] as int].2 as int]),
    )
}

/// A winning cycle for `traded`: a real walk of one to [`MAX_NUM_SWAPS`]
/// distinct edges from the start node to the traded token's node whose
/// output beats the input.
pub open spec fn winning_walk(
    g: SwapGraph,
    traded: Address,
    input: u128,
    tokens: Seq<usize>,
    edges: Seq<usize>,
    w: u128,
) -> bool {
    &&& walk_ok(g, tokens, edges)
    &&& 1 <= edges.len() <= MAX_NUM_SWAPS
    &&& tokens.last() as int == node_slot(g.labels@, traded)
    &&& walk_weight(g, tokens, edges, input) == Ok::<u128, ArbitrageError>(w)
    &&& w > input
}

/// What the search returns: the degenerate empty path at the input weight
/// when no cycle beats the input, or a path spelled from a winning walk.
pub open spec fn search_output_ok(
    g: SwapGraph,
    traded: Address,
    input: u128,
    path: Path,
    w: u128,
) -> bool {
    ||| (path.token_order@.len() == 0 && path.pair_order@.len() == 0 && w == input)
    ||| exists|tokens: Seq<usize>, edges: Seq<usize>|
        winning_walk(g, traded, input, tokens, edges, w) && path_matches(g, path, tokens, edges)
}

/// A weight chain ending above zero started above zero: a zero amount can
/// only quote to zero through any pool.
pub proof fn lemma_walk_weight_positive(
    g: SwapGraph,
    tokens: Seq<usize>,
    edges: Seq<usize>,
    input: u128,
    w: u128,
)
    requires
        tokens.len() == edges.len() + 1,
        walk_weight(g, tokens, edges, input) == Ok::<u128, ArbitrageError>(w),
        w > 0,
    ensures
        input > 0,
    decreases edges.len(),
{
    if edges.len() > 0 {
        let tr = graph_edges(g.g)[edges[0] as int];
        let p = g.pairs@[tr.2 as int];
        let lbl = g.labels@[tokens[0] as int];
        match p.weight_of(lbl, input as int) {
            Err(er) => {},
            Ok(w1) => {
                lemma_walk_weight_positive(g, tokens.drop_first(), edges.drop_first(), w1, w);
                if input == 0 {
                    if p.amount_out_of(lbl, 0) is Ok {
                        if lbl == p.token0 {
                            crate::math::lemma_math_out_zero_input(
                                p.reserve0 as int,
                                p.reserve1 as int,
                                p.fee as int,
                            );
                        } else if lbl == p.token1 {
                            crate::math::lemma_math_out_zero_input(
                                p.reserve1 as int,
                                p.reserve0 as int,
                                p.fee as int,
                            );
                        }
                    }
                    assert(false);
                }
            },
        }
    }
}

/// The spelled-out path of a positive-weight walk evaluates through the
/// registry to exactly the walk's running amounts, provided each pool on
/// the walk resolves to itself: the path's final amount is the walk's
/// weight.
pub proof fn lemma_walk_amounts(
    g: SwapGraph,
    reg: PairRegistry,
    tokens: Seq<usize>,
    edges: Seq<usize>,
    lab_tokens: Seq<Address>,
    lookups: Seq<PairLookup>,
    input: u128,
    w: u128,
)
    requires
        tokens.len() == edges.len() + 1,
        forall|i: int| 0 <= i < tokens.len() ==> (#[trigger] tokens[i] as int) < g.labels@.len(),
        walk_weight(g, tokens, edges, input) == Ok::<u128, ArbitrageError>(w),
        w > 0,
        lab_tokens == Seq::new(tokens.len(), |i: int| g.labels@[tokens[i] as int]),
        lookups == Seq::new(
            edges.len(),
            |i: int| lookup_of(g.pairs@[graph_edges(g.g)[edges[i] as int].2 as int]),
        ),
        forall|i: int|
            0 <= i < edges.len() ==> resolve_lookup_spec(reg, #[trigger] lookups[i]) == Ok::<
                Pair,
                ArbitrageError,
            >(g.pairs@[graph_edges(g.g)[edges[i] as int].2 as int]),
    ensures
        amounts_out_spec(reg, lab_tokens, lookups, input) is Ok,
        amounts_out_spec(reg, lab_tokens, lookups, input)->Ok_0.len() == tokens.len(),
        amounts_out_spec(reg, lab_tokens, lookups, input)->Ok_0.last() == w,
        amounts_out_spec(reg, lab_tokens, lookups, input)->Ok_0[0] == input,
    decreases edges.len(),
{
    if edges.len() == 0 {
        assert(amounts_out_spec(reg, lab_tokens, lookups, input) == Ok::<Seq<u128>, ArbitrageError>(
            seq![input],
        ));
    } else {
        let tr = graph_edges(g.g)[edges[0] as int];
        let p = g.pairs@[tr.2 as int];
        let lbl = g.labels@[tokens[0] as int];
        match p.weight_of(lbl, input as int) {
            Err(er) => {
                assert(false);
            },
            Ok(w1) => {
                lemma_walk_weight_positive(g, tokens.drop_first(), edges.drop_first(), w1, w);
                assert(p.amount_out_of(lbl, input as int) == Ok::<u128, ArbitrageError>(w1));
                assert(lab_tokens[0] == lbl);
                assert(lookups[0] == lookup_of(p));
                let tokens2 = tokens.drop_first();
                let edges2 = edges.drop_first();
                let lab2 = lab_tokens.drop_first();
                let lk2 = lookups.drop_first();
                assert forall|i: int|
                    0 <= i < tokens2.len() implies (#[trigger] tokens2[i] as int)
                    < g.labels@.len() by {
                    assert(tokens2[i] == tokens[i + 1]);
                }
                assert(lab2 =~= Seq::new(tokens2.len(), |i: int| g.labels@[tokens2[i] as int]))
                    by {
                    assert forall|i: int| 0 <= i < lab2.len() implies lab2[i] == g.labels@[(
                    tokens2[i]) as int] by {
                        assert(lab2[i] == lab_tokens[i + 1]);
                        assert(tokens2[i] == tokens[i + 1]);
                    }
                }
                assert(lk2 =~= Seq::new(
                    edges2.len(),
                    |i: int| lookup_of(g.pairs@[graph_edges(g.g)[edges2[i] as int].2 as int]),
                )) by {
                    assert forall|i: int| 0 <= i < lk2.len() implies lk2[i] == lookup_of(
                        g.pairs@[graph_edges(g.g)[edges2[i] as int].2 as int],
                    ) by {
                        assert(lk2[i] == lookups[i + 1]);
                        assert(edges2[i] == edges[i + 1]);
                    }
                }
                assert forall|i: int|
                    0 <= i < edges2.len() implies resolve_lookup_spec(reg, #[trigger] lk2[i])
                    == Ok::<Pair, ArbitrageError>(
                    g.pairs@[graph_edges(g.g)[edges2[i] as int].2 as int],
                ) by {
                    assert(lk2[i] == lookups[i + 1]);
                    assert(edges2[i] == edges[i + 1]);
                }
                lemma_walk_amounts(g, reg, tokens2, edges2, lab2, lk2, w1, w);
                let rest = amounts_out_spec(reg, lab2, lk2, w1)->Ok_0;
                assert(amounts_out_spec(reg, lab_tokens, lookups, input) == Ok::<
                    Seq<u128>,
                    ArbitrageError,
                >(seq![input] + rest));
                assert((seq![input] + rest).last() == rest.last());
                assert((seq![input] + rest)[0] == input);
            },
        }
    }
}

impl Path {
    /// Spell a search state out as a path: each node index becomes its
    /// token label, each edge index the lookup of its pair.
    pub fn from_search_path(graph: &SwapGraph, searched: &SearchPath) -> (r: Result<
        Path,
        ArbitrageError,
    >)
        requires
            graph.wf(),
            forall|i: int|
                0 <= i < searched.token_order@.len() ==> (#[trigger] searched.token_order@[i] as int)
                    < graph.labels@.len(),
            forall|i: int|
                0 <= i < searched.pair_order@.len() ==> (#[trigger] searched.pair_order@[i] as int)
                    < graph_edges(graph.g).len(),
        ensures
            r is Ok,
            path_matches(*graph, r->Ok_0, searched.token_order@, searched.pair_order@),
    {
        let mut token_order: Vec<Address> = Vec::new();
        let n = searched.token_order.len();
        let mut i: usize = 0;
        while i < n
            invariant
                graph.wf(),
                n == searched.token_order@.len(),
                i <= n,
                forall|k: int|
                    0 <= k < n ==> (#[trigger] searched.token_order@[k] as int)
                        < graph.labels@.len(),
                token_order@.len() == i,
                forall|k: int|
                    0 <= k < i ==> token_order@[k] == graph.labels@[searched.token_order@[k] as int],
            decreases n - i,
        {
            let node = searched.token_order[i];
            let w = graph_node_weight(&graph.g, node);
            token_order.push(graph.labels[w as usize]);
            i = i + 1;
        }
        let mut pair_order: Vec<PairLookup> = Vec::new();
        let m = searched.pair_order.len();
        let mut j: usize = 0;
        while j < m
            invariant
                graph.wf(),
                m == searched.pair_order@.len(),
                j <= m,
                forall|k: int|
                    0 <= k < m ==> (#[trigger] searched.pair_order@[k] as int) < graph_edges(
                        graph.g,
                    ).len(),
                pair_order@.len() == j,
                forall|k: int|
                    0 <= k < j ==> pair_order@[k] == lookup_of(
                        graph.pairs@[graph_edges(graph.g)[searched.pair_order@[k] as int].2 as int],
                    ),
            decreases m - j,
        {
            let eidx = searched.pair_order[j];
            let widx = graph_edge_weight(&graph.g, eidx);
            proof {
                assert(edge_ok(graph.labels@, graph.pairs@, graph_edges(graph.g)[eidx as int]));
            }
            let p = graph.pairs[widx as usize];
            let (t0, t1) = p.get_tokens();
            pair_order.push(PairLookup::new(p.factory, (t0, t1)));
            j = j + 1;
        }
        proof {
            assert(token_order@ =~= Seq::new(
                searched.token_order@.len(),
                |i: int| graph.labels@[searched.token_order@[i] as int],
            ));
            assert(pair_order@ =~= Seq::new(
                searched.pair_order@.len(),
                |i: int|
                    lookup_of(
                        graph.pairs@[graph_edges(graph.g)[searched.pair_order@[i] as int].2 as int],
                    ),
            ));
        }
        Ok(Path { token_order, pair_order })
    }
}

/// The node carrying `t`, scanned past the start slot.
fn node_index_of(labels: &Vec<Address>, t: &Address) -> (r: Option<usize>)
    ensures
        match r {
            Some(i) => node_slot(labels@, *t) == i as int && 1 <= i as int && (i as int)
                < labels@.len(),
            None => node_slot(labels@, *t) == -1,
        },
{
    let n = labels.len();
    let mut idx: usize = 1;
    while idx < n
        invariant
            n == labels@.len(),
            1 <= idx,
            node_slot(labels@, *t) == label_slot_from(labels@, *t, idx as int),
        decreases n - idx,
    {
        if labels[idx] == *t {
            return Some(idx);
        }
        idx = idx + 1;
    }
    None
}

/// Best-output bounded cycle search. Starting with `amount_in` at the
/// sentinel start node, walk at most [`MAX_NUM_SWAPS`] distinct edges to
/// the traded token's node, maximising the chained output. When no such
/// walk beats the input, the result is the empty path at the input weight.
/// With no node for the traded token there is nothing to search: `NoPath`.
/// A hard pricing error on any explored walk aborts the search.
pub fn find_shortest_path(g: &SwapGraph, target: &Address, amount_in: u128) -> (r: Result<
    (Path, u128),
    ArbitrageError,
>)
    requires
        g.wf(),
        graph_pairs_wf(*g),
        g.labels@[0] == *target,
    ensures
        (node_slot(g.labels@, *target) == -1) <==> (r is Err && r->Err_0
            == ArbitrageError::NoPath),
        match r {
            Ok(pw) => pw.0.wf() && search_output_ok(*g, *target, amount_in, pw.0, pw.1),
            Err(e) => e == ArbitrageError::NoPath || e == ArbitrageError::MathOverflow || e
                == ArbitrageError::MathUnderflow,
        },
        price_safe(*g) && amount_in <= PRICE_CAP && node_slot(g.labels@, *target) != -1 ==> r
            is Ok,
        price_safe(*g) && amount_in <= PRICE_CAP && node_slot(g.labels@, *target) != -1
            ==> forall|e1: int, e2: int|
            #![trigger graph_edges(g.g)[e1], graph_edges(g.g)[e2]]
            0 <= e1 < graph_edges(g.g).len() && 0 <= e2 < graph_edges(g.g).len() && graph_edges(
                g.g,
            )[e1].0 == 0usize && graph_edges(g.g)[e1].1 as int != node_slot(g.labels@, *target)
                && graph_edges(g.g)[e2].0 == graph_edges(g.g)[e1].1 && graph_edges(g.g)[e2].1
                as int == node_slot(g.labels@, *target) ==> two_hop_weight(
                *g,
                e1 as usize,
                e2 as usize,
                amount_in,
            ) <= r->Ok_0.1,
{
    let goal = match node_index_of(&g.labels, target) {
        Some(goal) => goal,
        None => {
            return Err(ArbitrageError::NoPath);
        },
    };
    let n = g.labels.len();
    let mut seen: Vec<Vec<Option<u128>>> = Vec::new();
    let mut d: usize = 0;
    while d < MAX_NUM_SWAPS + 2
        invariant
            seen@.len() == d,
            d <= MAX_NUM_SWAPS + 2,
            n == g.labels@.len(),
            forall|k: int| 0 <= k < d ==> (#[trigger] seen@[k])@.len() == n,
            forall|k: int, x: int|
                #![trigger seen@[k]@[x]]
                0 <= k < d && 0 <= x < seen@[k]@.len() ==> seen@[k]@[x] is None,
        decreases MAX_NUM_SWAPS + 2 - d,
    {
        let mut row: Vec<Option<u128>> = Vec::new();
        let mut c: usize = 0;
        while c < n
            invariant
                row@.len() == c,
                c <= n,
                forall|x: int| 0 <= x < c ==> #[trigger] row@[x] is None,
            decreases n - c,
        {
            row.push(None);
            c = c + 1;
        }
        seen.push(row);
        d = d + 1;
    }
    proof {
        assert(fresh_table(seen@));
    }
    let mut best = SearchPath::new(amount_in);
    let mut start = SearchPath::new(amount_in);
    start.token_order.push(0);
    match search_visit(g, goal, start, &mut seen, &mut best, Ghost(amount_in)) {
        Err(e) => Err(e),
        Ok(()) => {
            let path = match Path::from_search_path(g, &best) {
                Ok(path) => path,
                Err(e) => {
                    return Err(e);
                },
            };
            proof {
                if best.token_order@.len() != 0 {
                    assert(winning_walk(
                        *g,
                        *target,
                        amount_in,
                        best.token_order@,
                        best.pair_order@,
                        best.weight,
                    ));
                    assert(path_matches(*g, path, best.token_order@, best.pair_order@));
                }
            }
            Ok((path, best.weight))
        },
    }
}

} // verus!
