//! Paths through the pool graph and their evaluation.
//!
//! A [`PairLookup`] names a pool across ownership boundaries: the factory
//! plus the ordered token key. A [`Path`] is a token walk together with the
//! pool of each hop. Evaluation resolves each lookup against the live
//! registry and chains the pricing math through the hops.

use vstd::prelude::*;
use petgraph::stable_graph::StableGraph;
use petgraph::Directed;
use crate::address::{sort_address_pair, Address};
use crate::pair::{ArbitrageError, Pair};
use crate::pgraph::{graph_add_edge, graph_add_node, graph_edges, graph_new, graph_nodes};
use crate::registry::{pair_slot, protocol_slot, protocols_pairs, PairRegistry};

verus! {

/// A value-typed reference to one pool: its factory and its ordered token
/// key, resolved against the registry on every read.
#[derive(Clone, Copy, Debug)]
pub struct PairLookup {
    /// The factory owning the pool.
    pub factory_address: Address,
    /// The pool's `(token0, token1)` key, ascending.
    pub pair_addresses: (Address, Address),
}

impl PartialEq for PairLookup {
    fn eq(&self, other: &PairLookup) -> (r: bool) {
        self.factory_address == other.factory_address && self.pair_addresses.0
            == other.pair_addresses.0 && self.pair_addresses.1 == other.pair_addresses.1
    }
}

impl Eq for PairLookup {

}

impl vstd::std_specs::cmp::PartialEqSpecImpl for PairLookup {
    open spec fn obeys_eq_spec() -> bool {
        true
    }

    open spec fn eq_spec(&self, other: &PairLookup) -> bool {
        self.factory_address == other.factory_address && self.pair_addresses.0
            == other.pair_addresses.0 && self.pair_addresses.1 == other.pair_addresses.1
    }
}

impl PairLookup {
    /// Bundle a factory and a pair key.
    pub fn new(factory_address: Address, pair_addresses: (Address, Address)) -> (r: PairLookup)
        ensures
            r.factory_address == factory_address,
            r.pair_addresses == pair_addresses,
    {
        PairLookup { factory_address, pair_addresses }
    }
}

/// A walk through the graph: the tokens visited and the pool of each hop.
/// A well-formed path has one more token than hops.
#[derive(Clone, Debug)]
pub struct Path {
    /// The tokens visited, in order.
    pub token_order: Vec<Address>,
    /// The pool carrying each hop; `pair_order[i]` connects `token_order[i]`
    /// to `token_order[i + 1]`.
    pub pair_order: Vec<PairLookup>,
}

/// The pool a lookup names, read from the registry: the protocol under the
/// factory address, then the pair under the token key.
pub open spec fn resolve_lookup_spec(reg: PairRegistry, lk: PairLookup) -> Result<
    Pair,
    ArbitrageError,
> {
    let pi = protocol_slot(reg.protocols@, lk.factory_address);
    if pi == -1 {
        Err(ArbitrageError::ProtocolMissing)
    } else {
        let si = pair_slot(
            reg.protocols@[pi].pairs@,
            lk.pair_addresses.0,
            lk.pair_addresses.1,
        );
        if si == -1 {
            Err(ArbitrageError::PairMissing)
        } else {
            Ok(reg.protocols@[pi].pairs@[si])
        }
    }
}

/// Every pair in the registry resolves back to itself through its own
/// lookup. This holds of a well-formed registry without custom pairs; a
/// custom pair under a factory the registry does not list, or shadowed by
/// a protocol pair with the same key, breaks it.
pub open spec fn registry_resolves_all(reg: PairRegistry) -> bool {
    forall|k: int|
        0 <= k < reg.all_pairs().len() ==> resolve_lookup_spec(
            reg,
            lookup_of(#[trigger] reg.all_pairs()[k]),
        ) == Ok::<Pair, ArbitrageError>(reg.all_pairs()[k])
}

/// A well-formed registry without custom pairs resolves all its pairs.
pub proof fn lemma_registry_resolves(reg: PairRegistry)
    requires
        reg.wf(),
        reg.custom_pairs@.len() == 0,
    ensures
        registry_resolves_all(reg),
{
    assert forall|k: int|
        0 <= k < reg.all_pairs().len() implies resolve_lookup_spec(
        reg,
        lookup_of(#[trigger] reg.all_pairs()[k]),
    ) == Ok::<Pair, ArbitrageError>(reg.all_pairs()[k]) by {
        crate::registry::lemma_protocols_pairs_elem(reg.protocols@, k);
        let (pi, si) = choose|pi: int, si: int|
            #![trigger reg.protocols@[pi].pairs@[si]]
            0 <= pi < reg.protocols@.len() && 0 <= si < reg.protocols@[pi].pairs@.len()
                && protocols_pairs(reg.protocols@)[k] == reg.protocols@[pi].pairs@[si];
        crate::registry::lemma_protocol_pair_resolves(reg, pi, si);
    }
}

/// Resolve a lookup against the registry.
pub fn resolve_lookup(reg: &PairRegistry, lk: &PairLookup) -> (r: Result<Pair, ArbitrageError>)
    ensures
        r == resolve_lookup_spec(*reg, *lk),
{
    let pi = match reg.find_protocol(&lk.factory_address) {
        Some(pi) => pi,
        None => {
            return Err(ArbitrageError::ProtocolMissing);
        },
    };
    let si = match reg.protocols[pi].find_pair(&lk.pair_addresses.0, &lk.pair_addresses.1) {
        Some(si) => si,
        None => {
            return Err(ArbitrageError::PairMissing);
        },
    };
    Ok(reg.protocols[pi].pairs[si])
}

/// Chaining the exact-in quote along a path: element `0` is the input, and
/// each hop's quote feeds the next. The result has one entry per token.
/// The first failing resolution or quote is the result.
pub open spec fn amounts_out_spec(
    reg: PairRegistry,
    tokens: Seq<Address>,
    lookups: Seq<PairLookup>,
    input: u128,
) -> Result<Seq<u128>, ArbitrageError>
    decreases lookups.len(),
{
    if lookups.len() == 0 {
        Ok(seq![input])
    } else {
        match resolve_lookup_spec(reg, lookups[0]) {
            Err(e) => Err(e),
            Ok(pair) => match pair.amount_out_of(tokens[0], input as int) {
                Err(e) => Err(e),
                Ok(next) => match amounts_out_spec(
                    reg,
                    tokens.drop_first(),
                    lookups.drop_first(),
                    next,
                ) {
                    Err(e) => Err(e),
                    Ok(rest) => Ok(seq![input] + rest),
                },
            },
        }
    }
}

/// Chaining the exact-out quote backwards along a path: the last element is
/// the requested output, and each hop's required input feeds the hop before
/// it. The result has one entry per token.
pub open spec fn amounts_in_spec(
    reg: PairRegistry,
    tokens: Seq<Address>,
    lookups: Seq<PairLookup>,
    output: u128,
) -> Result<Seq<u128>, ArbitrageError>
    decreases lookups.len(),
{
    if lookups.len() == 0 {
        Ok(seq![output])
    } else {
        let n = lookups.len() as int;
        match resolve_lookup_spec(reg, lookups[n - 1]) {
            Err(e) => Err(e),
            Ok(pair) => match pair.amount_in_of(tokens[n - 1], output as int) {
                Err(e) => Err(e),
                Ok(prev) => match amounts_in_spec(reg, tokens, lookups.drop_last(), prev) {
                    Err(e) => Err(e),
                    Ok(rest) => Ok(rest + seq![output]),
                },
            },
        }
    }
}

/// A successful forward evaluation has one amount per token.
pub proof fn lemma_amounts_out_len(
    reg: PairRegistry,
    tokens: Seq<Address>,
    lookups: Seq<PairLookup>,
    input: u128,
)
    requires
        amounts_out_spec(reg, tokens, lookups, input) is Ok,
    ensures
        amounts_out_spec(reg, tokens, lookups, input)->Ok_0.len() == lookups.len() + 1,
    decreases lookups.len(),
{
    if lookups.len() > 0 {
        let pair = resolve_lookup_spec(reg, lookups[0])->Ok_0;
        let next = pair.amount_out_of(tokens[0], input as int)->Ok_0;
        lemma_amounts_out_len(reg, tokens.drop_first(), lookups.drop_first(), next);
    }
}

/// A successful backward evaluation has one amount per token.
pub proof fn lemma_amounts_in_len(
    reg: PairRegistry,
    tokens: Seq<Address>,
    lookups: Seq<PairLookup>,
    output: u128,
)
    requires
        amounts_in_spec(reg, tokens, lookups, output) is Ok,
    ensures
        amounts_in_spec(reg, tokens, lookups, output)->Ok_0.len() == lookups.len() + 1,
    decreases lookups.len(),
{
    if lookups.len() > 0 {
        let n = lookups.len() as int;
        let pair = resolve_lookup_spec(reg, lookups[n - 1])->Ok_0;
        let prev = pair.amount_in_of(tokens[n - 1], output as int)->Ok_0;
        lemma_amounts_in_len(reg, tokens, lookups.drop_last(), prev);
    }
}

impl Path {
    /// One more token than hops, or the degenerate empty path the search
    /// hands back when no cycle beats the input.
    pub open spec fn wf(self) -> bool {
        ||| self.token_order@.len() == self.pair_order@.len() + 1
        ||| (self.token_order@.len() == 0 && self.pair_order@.len() == 0)
    }

    /// Resolve every hop and chain the exact-in quote forward from `input`:
    /// the intermediate amounts, one per token, ending in the path's output.
    pub fn get_amounts_out(&self, input: u128, reg: &PairRegistry) -> (r: Result<
        Vec<u128>,
        ArbitrageError,
    >)
        requires
            self.wf(),
        ensures
            match r {
                Ok(v) => amounts_out_spec(*reg, self.token_order@, self.pair_order@, input) == Ok::<
                    Seq<u128>,
                    ArbitrageError,
                >(v@),
                Err(e) => amounts_out_spec(*reg, self.token_order@, self.pair_order@, input)
                    == Err::<Seq<u128>, ArbitrageError>(e),
            },
    {
        let n = self.pair_order.len();
        let mut amounts: Vec<u128> = Vec::new();
        let mut current: u128 = input;
        amounts.push(current);
        let mut i: usize = 0;
        proof {
            assert(self.token_order@.skip(0) =~= self.token_order@);
            assert(self.pair_order@.skip(0) =~= self.pair_order@);
            assert(amounts@.drop_last() =~= Seq::<u128>::empty());
            let whole = amounts_out_spec(*reg, self.token_order@, self.pair_order@, input);
            if whole is Ok {
                assert(Seq::<u128>::empty() + whole->Ok_0 =~= whole->Ok_0);
            }
        }
        while i < n
            invariant
                self.wf(),
                n == self.pair_order@.len(),
                i <= n,
                amounts@.len() == i + 1,
                amounts@.last() == current,
                match amounts_out_spec(
                    *reg,
                    self.token_order@.skip(i as int),
                    self.pair_order@.skip(i as int),
                    current,
                ) {
                    Ok(rest) => amounts_out_spec(
                        *reg,
                        self.token_order@,
                        self.pair_order@,
                        input,
                    ) == Ok::<Seq<u128>, ArbitrageError>(amounts@.drop_last() + rest),
                    Err(e) => amounts_out_spec(*reg, self.token_order@, self.pair_order@, input)
                        == Err::<Seq<u128>, ArbitrageError>(e),
                },
            decreases n - i,
        {
            proof {
                assert(self.token_order@.skip(i as int).drop_first() =~= self.token_order@.skip(
                    i + 1,
                ));
                assert(self.pair_order@.skip(i as int).drop_first() =~= self.pair_order@.skip(
                    i + 1,
                ));
                assert(self.token_order@.skip(i as int)[0] == self.token_order@[i as int]);
                assert(self.pair_order@.skip(i as int)[0] == self.pair_order@[i as int]);
            }
            let pair = match resolve_lookup(reg, &self.pair_order[i]) {
                Ok(pair) => pair,
                Err(e) => {
                    return Err(e);
                },
            };
            let ghost prev_amounts = amounts@;
            let ghost prev_current = current;
            let next = match pair.get_amount_out(self.token_order[i], current) {
                Ok(next) => next,
                Err(e) => {
                    return Err(e);
                },
            };
            current = next;
            amounts.push(current);
            proof {
                assert(amounts@.drop_last() =~= prev_amounts);
                let tail_spec = amounts_out_spec(
                    *reg,
                    self.token_order@.skip(i + 1),
                    self.pair_order@.skip(i + 1),
                    current,
                );
                if tail_spec is Ok {
                    let rest = tail_spec->Ok_0;
                    assert(prev_amounts.drop_last() + (seq![prev_current] + rest)
                        =~= prev_amounts + rest);
                }
            }
            i = i + 1;
        }
        proof {
            assert(self.pair_order@.skip(n as int).len() == 0);
            assert(amounts@.drop_last() + seq![current] =~= amounts@);
        }
        Ok(amounts)
    }

    /// Resolve every hop and chain the exact-out quote backwards from
    /// `output`: the required amounts, one per token, starting with the
    /// input the path demands.
    pub fn get_amounts_in(&self, output: u128, reg: &PairRegistry) -> (r: Result<
        Vec<u128>,
        ArbitrageError,
    >)
        requires
            self.wf(),
        ensures
            match r {
                Ok(v) => amounts_in_spec(*reg, self.token_order@, self.pair_order@, output) == Ok::<
                    Seq<u128>,
                    ArbitrageError,
                >(v@),
                Err(e) => amounts_in_spec(*reg, self.token_order@, self.pair_order@, output)
                    == Err::<Seq<u128>, ArbitrageError>(e),
            },
    {
        let n = self.pair_order.len();
        let mut amounts: Vec<u128> = Vec::new();
        let mut current: u128 = output;
        amounts.push(current);
        let mut j: usize = n;
        proof {
            assert(self.pair_order@.take(n as int) =~= self.pair_order@);
            assert(amounts@.drop_first() =~= Seq::<u128>::empty());
            let whole = amounts_in_spec(*reg, self.token_order@, self.pair_order@, output);
            if whole is Ok {
                assert(whole->Ok_0 + Seq::<u128>::empty() =~= whole->Ok_0);
            }
        }
        while j > 0
            invariant
                self.wf(),
                n == self.pair_order@.len(),
                j <= n,
                amounts@.len() == n - j + 1,
                amounts@[0] == current,
                match amounts_in_spec(
                    *reg,
                    self.token_order@,
                    self.pair_order@.take(j as int),
                    current,
                ) {
                    Ok(rest) => amounts_in_spec(
                        *reg,
                        self.token_order@,
                        self.pair_order@,
                        output,
                    ) == Ok::<Seq<u128>, ArbitrageError>(rest + amounts@.drop_first()),
                    Err(e) => amounts_in_spec(*reg, self.token_order@, self.pair_order@, output)
                        == Err::<Seq<u128>, ArbitrageError>(e),
                },
            decreases j,
        {
            proof {
                assert(self.pair_order@.take(j as int).drop_last() =~= self.pair_order@.take(
                    j - 1,
                ));
                assert(self.pair_order@.take(j as int)[j - 1] == self.pair_order@[j - 1]);
            }
            let pair = match resolve_lookup(reg, &self.pair_order[j - 1]) {
                Ok(pair) => pair,
                Err(e) => {
                    return Err(e);
                },
            };
            let ghost prev_amounts = amounts@;
            let ghost prev_current = current;
            let prev = match pair.get_amount_in(self.token_order[j - 1], current) {
                Ok(prev) => prev,
                Err(e) => {
                    return Err(e);
                },
            };
            current = prev;
            amounts.insert(0, current);
            proof {
                assert(amounts@ =~= seq![current] + prev_amounts);
                assert(amounts@.drop_first() =~= prev_amounts);
                let tail_spec = amounts_in_spec(
                    *reg,
                    self.token_order@,
                    self.pair_order@.take(j - 1),
                    current,
                );
                if tail_spec is Ok {
                    let rest = tail_spec->Ok_0;
                    assert((rest + seq![prev_current]) + prev_amounts.drop_first()
                        =~= rest + prev_amounts);
                    assert(prev_amounts =~= seq![prev_current] + prev_amounts.drop_first());
                }
            }
            j = j - 1;
        }
        proof {
            assert(self.pair_order@.take(0) =~= Seq::<PairLookup>::empty());
            assert(seq![current] + amounts@.drop_first() =~= amounts@);
        }
        Ok(amounts)
    }

    /// The path a pending router swap takes: its token list, with each
    /// adjacent token pair keyed in ascending order under the router's own
    /// factory. Routers only route through their own pools.
    pub fn from_trade_tokens(tokens: Vec<Address>, protocol: Address) -> (r: Result<
        Path,
        ArbitrageError,
    >)
        requires
            tokens@.len() >= 1,
        ensures
            r is Ok,
            r->Ok_0.token_order@ == tokens@,
            r->Ok_0.pair_order@ == trade_lookups(tokens@, protocol),
            r->Ok_0.wf(),
    {
        let n = tokens.len();
        let mut pair_order: Vec<PairLookup> = Vec::new();
        let mut i: usize = 0;
        while i < n - 1
            invariant
                n == tokens@.len(),
                n >= 1,
                i <= n - 1,
                pair_order@.len() == i,
                forall|k: int| 0 <= k < i ==> pair_order@[k] == trade_lookups(tokens@, protocol)[k],
            decreases n - 1 - i,
        {
            let (lo, hi) = sort_address_pair(tokens[i], tokens[i + 1]);
            pair_order.push(PairLookup { factory_address: protocol, pair_addresses: (lo, hi) });
            i = i + 1;
        }
        proof {
            assert(pair_order@ =~= trade_lookups(tokens@, protocol));
        }
        Ok(Path { token_order: tokens, pair_order })
    }
}

/// The hop keys a pending swap's token list induces: each adjacent pair of
/// tokens, sorted ascending, under the given factory.
pub open spec fn trade_lookups(tokens: Seq<Address>, protocol: Address) -> Seq<PairLookup> {
    Seq::new(
        (tokens.len() - 1) as nat,
        |i: int|
            PairLookup {
                factory_address: protocol,
                pair_addresses: if tokens[i].spec_lt(tokens[i + 1]) {
                    (tokens[i], tokens[i + 1])
                } else {
                    (tokens[i + 1], tokens[i])
                },
            },
    )
}

/// The lookup naming a pair: its factory and its ordered token key.
pub open spec fn lookup_of(p: Pair) -> PairLookup {
    PairLookup { factory_address: p.factory, pair_addresses: (p.token0, p.token1) }
}

/// Every non-start node of the graph carries a token of some build-input
/// pair: the start node aside, construction adds no other nodes.
pub open spec fn labels_from_pairs(g: SwapGraph) -> bool {
    forall|i: int|
        #![trigger g.labels@[i]]
        1 <= i < g.labels@.len() ==> exists|j: int|
            #![trigger g.pairs@[j]]
            0 <= j < g.pairs@.len() && (g.labels@[i] == g.pairs@[j].token0 || g.labels@[i]
                == g.pairs@[j].token1)
}

/// One stored edge is sound for a label table and a pair list: both ends
/// are real nodes, the target is never the start node, and the edge's ends
/// are labelled with the two tokens of its pair, in one order or the other.
pub open spec fn edge_ok(labels: Seq<Address>, pairs: Seq<Pair>, e: (usize, usize, u64)) -> bool {
    &&& (e.0 as int) < labels.len()
    &&& 1 <= (e.1 as int) < labels.len()
    &&& (e.2 as int) < pairs.len()
    &&& {
        let p = pairs[e.2 as int];
        (labels[e.0 as int] == p.token0 && labels[e.1 as int] == p.token1) || (labels[e.0 as int]
            == p.token1 && labels[e.1 as int] == p.token0)
    }
}

/// First slot at or after `from` whose label is `t`, or `-1`.
pub open spec fn label_slot_from(labels: Seq<Address>, t: Address, from: int) -> int
    decreases labels.len() - from,
{
    if from < 0 || from >= labels.len() {
        -1
    } else if labels[from] == t {
        from
    } else {
        label_slot_from(labels, t, from + 1)
    }
}

/// The node carrying token `t`: the slot labelled `t`, the start slot `0`
/// excluded, or `-1`. The start node shares its label with the traded
/// token's own node, so the scan begins at `1`.
pub open spec fn node_slot(labels: Seq<Address>, t: Address) -> int {
    label_slot_from(labels, t, 1)
}

/// A found label slot is in bounds, at or after `from`, and carries `t`.
pub proof fn lemma_label_slot_bounds(labels: Seq<Address>, t: Address, from: int)
    ensures
        label_slot_from(labels, t, from) == -1 || (from <= label_slot_from(labels, t, from)
            < labels.len() && labels[label_slot_from(labels, t, from)] == t),
    decreases labels.len() - from,
{
    if 0 <= from < labels.len() && labels[from] != t {
        lemma_label_slot_bounds(labels, t, from + 1);
    }
}

/// Appending labels does not move a slot that was already found.
pub proof fn lemma_label_slot_extend(a: Seq<Address>, b: Seq<Address>, t: Address, from: int)
    requires
        a.len() <= b.len(),
        forall|i: int| 0 <= i < a.len() ==> a[i] == b[i],
        label_slot_from(a, t, from) != -1,
    ensures
        label_slot_from(b, t, from) == label_slot_from(a, t, from),
    decreases a.len() - from,
{
    lemma_label_slot_bounds(a, t, from);
    if 0 <= from < a.len() {
        if a[from] == t {
        } else {
            lemma_label_slot_extend(a, b, t, from + 1);
        }
    }
}

/// A value present in a prefix is present in the whole.
pub proof fn lemma_contains_extend(
    a: Seq<(usize, usize, u64)>,
    b: Seq<(usize, usize, u64)>,
    v: (usize, usize, u64),
)
    requires
        a.len() <= b.len(),
        forall|i: int| 0 <= i < a.len() ==> a[i] == b[i],
        a.contains(v),
    ensures
        b.contains(v),
{
    let i = choose|i: int| 0 <= i < a.len() && a[i] == v;
    assert(b[i] == v);
}

/// The directed multigraph the search walks: a petgraph store whose node
/// `i` carries weight `i`, a label table giving each node its token, and
/// the pair list the edges index into. Node `0` is the sentinel start node;
/// it shares the traded token's label but no edge ever points back to it.
pub struct SwapGraph {
    /// The petgraph store; node weights are node indices, edge weights are
    /// slots in `pairs`.
    pub g: StableGraph<u64, u64, Directed, u32>,
    /// Token label of each node; slot `0` is the start node.
    pub labels: Vec<Address>,
    /// The pair list the graph was built from.
    pub pairs: Vec<Pair>,
}

impl SwapGraph {
    /// Structural invariant: the store mirrors the label table, non-start
    /// labels are distinct, and every stored edge is sound.
    pub open spec fn wf(self) -> bool {
        &&& 1 <= self.labels@.len() <= 0xffff_ffff
        &&& graph_nodes(self.g).len() == self.labels@.len()
        &&& forall|i: int| 0 <= i < self.labels@.len() ==> graph_nodes(self.g)[i] == i as u64
        &&& forall|i: int, j: int|
            1 <= i < j < self.labels@.len() ==> self.labels@[i] != self.labels@[j]
        &&& self.pairs@.len() <= 0x0fff_ffff
        &&& graph_edges(self.g).len() <= 0xffff_ffff
        &&& forall|e: int|
            0 <= e < graph_edges(self.g).len() ==> edge_ok(
                self.labels@,
                self.pairs@,
                #[trigger] graph_edges(self.g)[e],
            )
    }

    /// The pair `k` of the build input is wired in: its two tokens have
    /// nodes, both directions carry an edge labelled `k`, and a side equal
    /// to the traded token adds a start edge to the other side.
    pub open spec fn pair_in_graph(self, k: int, traded: Address) -> bool {
        let p = self.pairs@[k];
        let n0 = node_slot(self.labels@, p.token0);
        let n1 = node_slot(self.labels@, p.token1);
        &&& 1 <= n0 < self.labels@.len()
        &&& 1 <= n1 < self.labels@.len()
        &&& graph_edges(self.g).contains((n0 as usize, n1 as usize, k as u64))
        &&& graph_edges(self.g).contains((n1 as usize, n0 as usize, k as u64))
        &&& (p.token0 == traded ==> graph_edges(self.g).contains((0usize, n1 as usize, k as u64)))
        &&& (p.token1 == traded ==> graph_edges(self.g).contains((0usize, n0 as usize, k as u64)))
    }

    /// The node carrying `token`, creating it if it is new. The start slot
    /// is never returned: the traded token gets a node of its own.
    fn ensure_node(&mut self, token: Address) -> (r: usize)
        requires
            old(self).wf(),
            old(self).labels@.len() + 1 <= 0xffff_ffff,
        ensures
            final(self).wf(),
            final(self).pairs@ == old(self).pairs@,
            graph_edges(final(self).g) == graph_edges(old(self).g),
            old(self).labels@.len() <= final(self).labels@.len() <= old(self).labels@.len() + 1,
            forall|i: int| 0 <= i < old(self).labels@.len() ==> final(self).labels@[i] == old(
                self,
            ).labels@[i],
            forall|i: int|
                old(self).labels@.len() <= i < final(self).labels@.len()
                    ==> final(self).labels@[i] == token,
            1 <= r as int && (r as int) < final(self).labels@.len(),
            node_slot(final(self).labels@, token) == r as int,
    {
        let n = self.labels.len();
        let mut idx: usize = 1;
        while idx < n
            invariant
                n == self.labels@.len(),
                1 <= idx <= n,
                *self == *old(self),
                old(self).wf(),
                node_slot(self.labels@, token) == label_slot_from(self.labels@, token, idx as int),
            decreases n - idx,
        {
            if self.labels[idx] == token {
                return idx;
            }
            idx = idx + 1;
        }
        let fresh = self.labels.len();
        proof {
            assert(label_slot_from(self.labels@, token, n as int) == -1);
        }
        let ghost before = self.labels@;
        let _new_node = graph_add_node(&mut self.g, fresh as u64);
        self.labels.push(token);
        proof {
            lemma_label_slot_step_none(before, self.labels@, token, 1);
            lemma_label_slot_none_absent(before, token, 1);
            assert forall|i: int, j: int|
                1 <= i < j < self.labels@.len() implies self.labels@[i] != self.labels@[j] by {
                if j == before.len() {
                    assert(self.labels@[i] == before[i]);
                }
            }
        }
        fresh
    }
}

impl SwapGraph {
    /// Wire pair `k` in: ensure nodes for both tokens, add an edge in each
    /// direction, and, where a side equals the traded token, an edge from
    /// the start node to the other side first.
    fn add_pair(&mut self, k: usize, traded: Address)
        requires
            old(self).wf(),
            (k as int) < old(self).pairs@.len(),
            old(self).labels@[0] == traded,
            old(self).labels@.len() + 2 <= 0xffff_ffff,
            graph_edges(old(self).g).len() + 3 <= 0xffff_fffe,
        ensures
            final(self).wf(),
            final(self).pairs@ == old(self).pairs@,
            old(self).labels@.len() <= final(self).labels@.len(),
            final(self).labels@.len() <= old(self).labels@.len() + 2,
            forall|i: int|
                0 <= i < old(self).labels@.len() ==> final(self).labels@[i] == old(
                    self,
                ).labels@[i],
            forall|i: int|
                old(self).labels@.len() <= i < final(self).labels@.len()
                    ==> final(self).labels@[i] == old(self).pairs@[k as int].token0
                    || final(self).labels@[i] == old(self).pairs@[k as int].token1,
            graph_edges(old(self).g).len() <= graph_edges(final(self).g).len(),
            graph_edges(final(self).g).len() <= graph_edges(old(self).g).len() + 3,
            forall|i: int|
                0 <= i < graph_edges(old(self).g).len() ==> graph_edges(final(self).g)[i]
                    == graph_edges(old(self).g)[i],
            final(self).pair_in_graph(k as int, traded),
    {
        let p = self.pairs[k];
        let n0 = self.ensure_node(p.token0);
        let ghost mid = *self;
        let n1 = self.ensure_node(p.token1);
        proof {
            lemma_label_slot_extend(mid.labels@, self.labels@, p.token0, 1);
            lemma_label_slot_bounds(self.labels@, p.token0, 1);
            lemma_label_slot_bounds(self.labels@, p.token1, 1);
        }
        if p.token0 == traded {
            let ghost pre = *self;
            graph_add_edge(&mut self.g, 0, n1, k as u64);
            proof {
                lemma_wf_after_edge_push(pre, *self, (0usize, n1, k as u64));
            }
        } else if p.token1 == traded {
            let ghost pre = *self;
            graph_add_edge(&mut self.g, 0, n0, k as u64);
            proof {
                lemma_wf_after_edge_push(pre, *self, (0usize, n0, k as u64));
            }
        }
        let ghost pre1 = *self;
        graph_add_edge(&mut self.g, n0, n1, k as u64);
        proof {
            lemma_wf_after_edge_push(pre1, *self, (n0, n1, k as u64));
        }
        let ghost pre2 = *self;
        graph_add_edge(&mut self.g, n1, n0, k as u64);
        proof {
            lemma_wf_after_edge_push(pre2, *self, (n1, n0, k as u64));
            let edges = graph_edges(self.g);
            assert(edges[edges.len() - 1] == (n1, n0, k as u64));
            assert(edges.contains((n1, n0, k as u64)));
            assert(edges[edges.len() - 2] == (n0, n1, k as u64));
            assert(edges.contains((n0, n1, k as u64)));
            if p.token0 == traded || p.token1 == traded {
                let other: usize = if p.token0 == traded {
                    n1
                } else {
                    n0
                };
                assert(edges[edges.len() - 3] == (0usize, other, k as u64));
                assert(edges.contains((0usize, other, k as u64)));
            }
        }
    }
}

/// Pushing one sound edge keeps the graph invariant; everything else of
/// the structure is unchanged.
pub proof fn lemma_wf_after_edge_push(a: SwapGraph, b: SwapGraph, e: (usize, usize, u64))
    requires
        a.wf(),
        b.labels@ == a.labels@,
        b.pairs@ == a.pairs@,
        graph_nodes(b.g) == graph_nodes(a.g),
        graph_edges(b.g) == graph_edges(a.g).push(e),
        graph_edges(a.g).len() + 1 <= 0xffff_ffff,
        edge_ok(a.labels@, a.pairs@, e),
    ensures
        b.wf(),
        forall|i: int|
            0 <= i < graph_edges(a.g).len() ==> graph_edges(b.g)[i] == graph_edges(a.g)[i],
{
    assert forall|i: int|
        0 <= i < graph_edges(b.g).len() implies edge_ok(
        b.labels@,
        b.pairs@,
        #[trigger] graph_edges(b.g)[i],
    ) by {
        if i < graph_edges(a.g).len() {
            assert(graph_edges(b.g)[i] == graph_edges(a.g)[i]);
        } else {
            assert(graph_edges(b.g)[i] == e);
        }
    }
}

/// Growing the graph leaves an already wired pair wired: labels may gain
/// entries, edges may be appended, but nothing moves.
pub proof fn lemma_pair_in_graph_stable(a: SwapGraph, b: SwapGraph, j: int, traded: Address)
    requires
        0 <= j < a.pairs@.len(),
        a.pair_in_graph(j, traded),
        b.pairs@ == a.pairs@,
        a.labels@.len() <= b.labels@.len(),
        forall|i: int| 0 <= i < a.labels@.len() ==> b.labels@[i] == a.labels@[i],
        graph_edges(a.g).len() <= graph_edges(b.g).len(),
        forall|i: int|
            0 <= i < graph_edges(a.g).len() ==> graph_edges(b.g)[i] == graph_edges(a.g)[i],
    ensures
        b.pair_in_graph(j, traded),
{
    let p = a.pairs@[j];
    let n0 = node_slot(a.labels@, p.token0);
    let n1 = node_slot(a.labels@, p.token1);
    lemma_label_slot_extend(a.labels@, b.labels@, p.token0, 1);
    lemma_label_slot_extend(a.labels@, b.labels@, p.token1, 1);
    lemma_contains_extend(
        graph_edges(a.g),
        graph_edges(b.g),
        (n0 as usize, n1 as usize, j as u64),
    );
    lemma_contains_extend(
        graph_edges(a.g),
        graph_edges(b.g),
        (n1 as usize, n0 as usize, j as u64),
    );
    if p.token0 == traded {
        lemma_contains_extend(graph_edges(a.g), graph_edges(b.g), (0usize, n1 as usize, j as u64));
    }
    if p.token1 == traded {
        lemma_contains_extend(graph_edges(a.g), graph_edges(b.g), (0usize, n0 as usize, j as u64));
    }
}

/// Build the directed multigraph over every given pair. Node `0` is the
/// sentinel start node; it carries the traded token's label, and the token
/// itself gets a distinct node when some pair names it. Every pair adds an
/// edge in each direction between its token nodes, and, where a side is
/// the traded token, an edge from the start node to the other side.
pub fn create_graph(all_pairs: Vec<Pair>, traded_token: Address) -> (r: SwapGraph)
    requires
        all_pairs@.len() <= 0x0fff_ffff,
    ensures
        r.wf(),
        r.pairs@ == all_pairs@,
        r.labels@.len() >= 1,
        r.labels@[0] == traded_token,
        forall|k: int| 0 <= k < all_pairs@.len() ==> r.pair_in_graph(k, traded_token),
        labels_from_pairs(r),
{
    let mut gg = graph_new();
    let _start = graph_add_node(&mut gg, 0);
    let mut start_labels: Vec<Address> = Vec::new();
    start_labels.push(traded_token);
    let mut sg = SwapGraph { g: gg, labels: start_labels, pairs: all_pairs };
    let n = sg.pairs.len();
    let mut k: usize = 0;
    while k < n
        invariant
            sg.wf(),
            sg.pairs@ == all_pairs@,
            n == sg.pairs@.len(),
            n <= 0x0fff_ffff,
            k <= n,
            sg.labels@.len() >= 1,
            sg.labels@[0] == traded_token,
            sg.labels@.len() <= 1 + 2 * k,
            graph_edges(sg.g).len() <= 3 * k,
            forall|j: int| 0 <= j < k ==> sg.pair_in_graph(j, traded_token),
            labels_from_pairs(sg),
        decreases n - k,
    {
        let ghost prev = sg;
        sg.add_pair(k, traded_token);
        proof {
            assert forall|j: int| 0 <= j < k + 1 implies sg.pair_in_graph(j, traded_token) by {
                if j < k {
                    lemma_pair_in_graph_stable(prev, sg, j, traded_token);
                }
            }
            assert forall|i: int|
                #![trigger sg.labels@[i]]
                1 <= i < sg.labels@.len() implies exists|j: int|
                #![trigger sg.pairs@[j]]
                0 <= j < sg.pairs@.len() && (sg.labels@[i] == sg.pairs@[j].token0
                    || sg.labels@[i] == sg.pairs@[j].token1) by {
                assert(labels_from_pairs(prev));
                if i < prev.labels@.len() {
                    assert(sg.labels@[i] == prev.labels@[i]);
                    let j0 = choose|j: int|
                        #![trigger prev.pairs@[j]]
                        0 <= j < prev.pairs@.len() && (prev.labels@[i] == prev.pairs@[j].token0
                            || prev.labels@[i] == prev.pairs@[j].token1);
                    assert(0 <= j0 < sg.pairs@.len() && (sg.labels@[i] == sg.pairs@[j0].token0
                        || sg.labels@[i] == sg.pairs@[j0].token1));
                } else {
                    assert(sg.labels@[i] == prev.pairs@[k as int].token0 || sg.labels@[i]
                        == prev.pairs@[k as int].token1);
                    assert(0 <= k < sg.pairs@.len() && (sg.labels@[i] == sg.pairs@[k as int].token0
                        || sg.labels@[i] == sg.pairs@[k as int].token1));
                }
            }
        }
        k = k + 1;
    }
    sg
}

/// A failed scan means no slot from `from` on carries the label.
pub proof fn lemma_label_slot_none_absent(labels: Seq<Address>, t: Address, from: int)
    requires
        0 <= from,
        label_slot_from(labels, t, from) == -1,
    ensures
        forall|i: int| from <= i < labels.len() ==> labels[i] != t,
    decreases labels.len() - from,
{
    if 0 <= from < labels.len() {
        assert(labels[from] != t);
        lemma_label_slot_none_absent(labels, t, from + 1);
    }
}

/// If `b` is `a` plus one final label, a scan of `b` that finds nothing in
/// `a`'s range ends at that final label or fails exactly as in `a`.
pub proof fn lemma_label_slot_step_none(a: Seq<Address>, b: Seq<Address>, t: Address, from: int)
    requires
        b.len() == a.len() + 1,
        forall|i: int| 0 <= i < a.len() ==> a[i] == b[i],
        label_slot_from(a, t, from) == -1,
        b[a.len() as int] == t,
        0 <= from <= a.len(),
    ensures
        label_slot_from(b, t, from) == a.len(),
    decreases a.len() - from,
{
    if from < a.len() {
        assert(a[from] != t);
        lemma_label_slot_step_none(a, b, t, from + 1);
    }
}

} // verus!
