//! Protocols and the registry of all known pools.
//!
//! A [`Protocol`] owns the pairs deployed by one factory. The registry holds
//! every protocol plus hand-configured custom pairs. Pending swaps are scored
//! by temporarily applying their reserve deltas to a protocol
//! ([`Protocol::simulate`]) and rolling them back ([`Protocol::unsimulate`]);
//! the snapshot returned by `simulate` makes the rollback exact.

use vstd::prelude::*;
use crate::address::Address;
use crate::pair::{ArbitrageError, Pair};

verus! {

/// The predicted reserve movement of one swap leg: `amount_in` of
/// `token_in` enters the pool, `amount_out` of `token_out` leaves it.
#[derive(PartialEq, Eq, Structural, Clone, Copy, Debug)]
pub struct PairDelta {
    /// Token paid into the pool.
    pub token_in: Address,
    /// Token taken out of the pool.
    pub token_out: Address,
    /// Amount credited to the input side.
    pub amount_in: u128,
    /// Amount debited from the output side.
    pub amount_out: u128,
}

impl PairDelta {
    /// The pool key of this leg: its two tokens in ascending order.
    pub open spec fn spec_key(self) -> (Address, Address) {
        if self.token_in.spec_lt(self.token_out) {
            (self.token_in, self.token_out)
        } else {
            (self.token_out, self.token_in)
        }
    }
}

/// A snapshot entry: the pair's slot and both reserves as they stood
/// before one simulation step.
#[derive(PartialEq, Eq, Structural, Clone, Copy, Debug)]
pub struct ReserveSnapshot {
    /// Slot of the pair in the protocol's list.
    pub index: usize,
    /// `reserve0` before the step.
    pub reserve0: u128,
    /// `reserve1` before the step.
    pub reserve1: u128,
}

/// First slot whose pair has exactly the key `(t0, t1)`, or `-1`.
pub open spec fn pair_slot(pairs: Seq<Pair>, t0: Address, t1: Address) -> int
    decreases pairs.len(),
{
    if pairs.len() == 0 {
        -1
    } else if pairs[0].token0 == t0 && pairs[0].token1 == t1 {
        0
    } else {
        let rest = pair_slot(pairs.drop_first(), t0, t1);
        if rest == -1 {
            -1
        } else {
            rest + 1
        }
    }
}

/// Saturating add on 128 bits.
pub open spec fn sat_add(a: u128, b: u128) -> u128 {
    if a + b > u128::MAX {
        u128::MAX
    } else {
        (a + b) as u128
    }
}

/// Saturating subtraction on 128 bits.
pub open spec fn sat_sub(a: u128, b: u128) -> u128 {
    if a < b {
        0
    } else {
        (a - b) as u128
    }
}

/// One simulation step: credit and debit the resolved pair's reserves,
/// respecting the pair's own token ordering. Reserves saturate instead of
/// wrapping. A leg whose key does not resolve leaves the list unchanged.
pub open spec fn sim_step(pairs: Seq<Pair>, d: PairDelta) -> Seq<Pair> {
    let key = d.spec_key();
    let i = pair_slot(pairs, key.0, key.1);
    if i == -1 {
        pairs
    } else {
        let p = pairs[i];
        let updated = if d.token_in == p.token0 {
            Pair {
                reserve0: sat_add(p.reserve0, d.amount_in),
                reserve1: sat_sub(p.reserve1, d.amount_out),
                ..p
            }
        } else {
            Pair {
                reserve1: sat_add(p.reserve1, d.amount_in),
                reserve0: sat_sub(p.reserve0, d.amount_out),
                ..p
            }
        };
        pairs.update(i, updated)
    }
}

/// The pair list after applying every leg in order.
pub open spec fn sim_all(pairs: Seq<Pair>, ds: Seq<PairDelta>) -> Seq<Pair>
    decreases ds.len(),
{
    if ds.len() == 0 {
        pairs
    } else {
        sim_all(sim_step(pairs, ds[0]), ds.drop_first())
    }
}

/// The snapshot entry for one leg: the resolved slot and its reserves as
/// they stand right now.
pub open spec fn snap_entry(pairs: Seq<Pair>, d: PairDelta) -> ReserveSnapshot {
    let key = d.spec_key();
    let i = pair_slot(pairs, key.0, key.1);
    ReserveSnapshot { index: i as usize, reserve0: pairs[i].reserve0, reserve1: pairs[i].reserve1 }
}

/// The snapshot taken while applying every leg in order: one entry per leg,
/// recording the resolved slot and its reserves just before that step.
pub open spec fn snap_all(pairs: Seq<Pair>, ds: Seq<PairDelta>) -> Seq<ReserveSnapshot>
    decreases ds.len(),
{
    if ds.len() == 0 {
        Seq::empty()
    } else {
        seq![snap_entry(pairs, ds[0])] + snap_all(sim_step(pairs, ds[0]), ds.drop_first())
    }
}

/// Write one snapshot entry back.
pub open spec fn restore_step(pairs: Seq<Pair>, s: ReserveSnapshot) -> Seq<Pair> {
    if s.index < pairs.len() {
        pairs.update(
            s.index as int,
            Pair { reserve0: s.reserve0, reserve1: s.reserve1, ..pairs[s.index as int] },
        )
    } else {
        pairs
    }
}

/// Write a whole snapshot back, last entry first: the first entry, taken
/// earliest, is written last.
pub open spec fn restore_all(pairs: Seq<Pair>, snaps: Seq<ReserveSnapshot>) -> Seq<Pair>
    decreases snaps.len(),
{
    if snaps.len() == 0 {
        pairs
    } else {
        restore_step(restore_all(pairs, snaps.drop_first()), snaps[0])
    }
}

/// Every leg's key resolves to some pair in the list.
pub open spec fn deltas_resolve(pairs: Seq<Pair>, ds: Seq<PairDelta>) -> bool {
    forall|j: int|
        0 <= j < ds.len() ==> pair_slot(pairs, #[trigger] ds[j].spec_key().0, ds[j].spec_key().1)
            != -1
}

/// A set of pairs belonging to one factory, with its router and flat fee.
#[derive(Debug)]
pub struct Protocol {
    /// The factory that deployed these pools.
    pub factory: Address,
    /// The router whose pending calls move these pools.
    pub router: Address,
    /// Fee charged by every pool of this protocol.
    pub swap_fee: u32,
    /// The owned pools; keys `(token0, token1)` are unique.
    pub pairs: Vec<Pair>,
}

impl Protocol {
    /// Structural invariant: every pair is well-formed, carries this
    /// factory, and no two pairs share a key.
    pub open spec fn wf(self) -> bool {
        &&& forall|i: int| 0 <= i < self.pairs@.len() ==> (#[trigger] self.pairs@[i]).wf()
        &&& forall|i: int|
            0 <= i < self.pairs@.len() ==> (#[trigger] self.pairs@[i]).factory == self.factory
        &&& forall|i: int, j: int|
            0 <= i < j < self.pairs@.len() ==> !((#[trigger] self.pairs@[i]).token0
                == (#[trigger] self.pairs@[j]).token0 && self.pairs@[i].token1
                == self.pairs@[j].token1)
    }

    /// An empty protocol for one factory.
    pub fn new(factory: Address, router: Address, swap_fee: u32) -> (r: Protocol)
        ensures
            r.factory == factory,
            r.router == router,
            r.swap_fee == swap_fee,
            r.pairs@.len() == 0,
            r.wf(),
    {
        Protocol { factory, router, swap_fee, pairs: Vec::new() }
    }

    /// Slot of the pair with key `(t0, t1)`, if any.
    pub fn find_pair(&self, t0: &Address, t1: &Address) -> (r: Option<usize>)
        ensures
            match r {
                Some(i) => i < self.pairs@.len() && pair_slot(self.pairs@, *t0, *t1) == i as int,
                None => pair_slot(self.pairs@, *t0, *t1) == -1,
            },
    {
        let mut i: usize = 0;
        while i < self.pairs.len()
            invariant
                i <= self.pairs@.len(),
                pair_slot_partial_none(self.pairs@, *t0, *t1, i as int),
            decreases self.pairs@.len() - i,
        {
            if self.pairs[i].token0 == *t0 && self.pairs[i].token1 == *t1 {
                proof {
                    lemma_pair_slot_found(self.pairs@, *t0, *t1, i as int);
                }
                return Some(i);
            }
            i = i + 1;
        }
        proof {
            lemma_pair_slot_missing(self.pairs@, *t0, *t1);
        }
        None
    }

    /// Register a discovered pool with empty reserves, keyed by its
    /// ordered tokens; an existing pool under the same key is replaced, as a
    /// catalog reload re-reads the same rows.
    pub fn register_pair(&mut self, address: Address, token0: Address, token1: Address)
        requires
            old(self).wf(),
            token0.spec_lt(token1),
            old(self).swap_fee < 10000,
        ensures
            final(self).wf(),
            final(self).factory == old(self).factory,
            final(self).router == old(self).router,
            final(self).swap_fee == old(self).swap_fee,
            pair_slot(final(self).pairs@, token0, token1) != -1,
    {
        let fresh = Pair::new(address, self.factory, token0, token1, self.swap_fee);
        match self.find_pair(&token0, &token1) {
            Some(i) => {
                proof {
                    lemma_pair_slot_bounds(self.pairs@, token0, token1);
                    lemma_pair_slot_update_same_key(self.pairs@, token0, token1, i as int, fresh);
                }
                let ghost before = self.pairs@;
                self.pairs.set(i, fresh);
                proof {
                    assert forall|p: int, q: int|
                        0 <= p < q < self.pairs@.len() implies !((#[trigger] self.pairs@[p]).token0
                        == (#[trigger] self.pairs@[q]).token0 && self.pairs@[p].token1
                        == self.pairs@[q].token1) by {
                        assert(self.pairs@[p].token0 == before[p].token0);
                        assert(self.pairs@[p].token1 == before[p].token1);
                        assert(self.pairs@[q].token0 == before[q].token0);
                        assert(self.pairs@[q].token1 == before[q].token1);
                    }
                }
            },
            None => {
                proof {
                    lemma_pair_slot_absent(self.pairs@, token0, token1);
                    lemma_pair_slot_push(self.pairs@, token0, token1, fresh);
                }
                self.pairs.push(fresh);
            },
        }
    }

    /// Overwrite every pool's reserves from a freshly read list, one entry
    /// per pool in slot order.
    pub fn set_reserves(&mut self, reserves: &Vec<(u128, u128)>)
        requires
            reserves@.len() == old(self).pairs@.len(),
        ensures
            final(self).factory == old(self).factory,
            final(self).router == old(self).router,
            final(self).swap_fee == old(self).swap_fee,
            final(self).pairs@.len() == old(self).pairs@.len(),
            forall|i: int|
                0 <= i < final(self).pairs@.len() ==> #[trigger] final(self).pairs@[i] == (Pair {
                    reserve0: reserves@[i].0,
                    reserve1: reserves@[i].1,
                    ..old(self).pairs@[i]
                }),
            old(self).wf() ==> final(self).wf(),
    {
        let n = self.pairs.len();
        let mut i: usize = 0;
        while i < n
            invariant
                n == self.pairs@.len(),
                n == old(self).pairs@.len(),
                n == reserves@.len(),
                i <= n,
                self.factory == old(self).factory,
                self.router == old(self).router,
                self.swap_fee == old(self).swap_fee,
                forall|k: int|
                    0 <= k < i ==> #[trigger] self.pairs@[k] == (Pair {
                        reserve0: reserves@[k].0,
                        reserve1: reserves@[k].1,
                        ..old(self).pairs@[k]
                    }),
                forall|k: int| i <= k < n ==> #[trigger] self.pairs@[k] == old(self).pairs@[k],
            decreases n - i,
        {
            let (r0, r1) = reserves[i];
            let p = self.pairs[i];
            self.pairs.set(i, Pair { reserve0: r0, reserve1: r1, ..p });
            i = i + 1;
        }
    }
}

/// Two pair lists of equal length whose slots hold the same token keys.
pub open spec fn same_keys(a: Seq<Pair>, b: Seq<Pair>) -> bool {
    &&& a.len() == b.len()
    &&& forall|i: int|
        0 <= i < a.len() ==> (#[trigger] a[i]).token0 == b[i].token0 && a[i].token1 == b[i].token1
}

/// Key lookup only reads the token keys.
pub proof fn lemma_pair_slot_same_keys(a: Seq<Pair>, b: Seq<Pair>, t0: Address, t1: Address)
    requires
        same_keys(a, b),
    ensures
        pair_slot(a, t0, t1) == pair_slot(b, t0, t1),
    decreases a.len(),
{
    if a.len() > 0 {
        assert forall|i: int|
            0 <= i < a.drop_first().len() implies (#[trigger] a.drop_first()[i]).token0
            == b.drop_first()[i].token0 && a.drop_first()[i].token1
            == b.drop_first()[i].token1 by {
            assert(a.drop_first()[i] == a[i + 1]);
            assert(b.drop_first()[i] == b[i + 1]);
        }
        lemma_pair_slot_same_keys(a.drop_first(), b.drop_first(), t0, t1);
    }
}

/// A simulation step moves reserves only: keys stay in place.
pub proof fn lemma_sim_step_same_keys(pairs: Seq<Pair>, d: PairDelta)
    ensures
        same_keys(pairs, sim_step(pairs, d)),
{
    let key = d.spec_key();
    lemma_pair_slot_bounds(pairs, key.0, key.1);
}

/// Applying any leg sequence moves reserves only: keys stay in place.
pub proof fn lemma_sim_all_same_keys(pairs: Seq<Pair>, ds: Seq<PairDelta>)
    ensures
        same_keys(pairs, sim_all(pairs, ds)),
    decreases ds.len(),
{
    if ds.len() > 0 {
        lemma_sim_step_same_keys(pairs, ds[0]);
        lemma_sim_all_same_keys(sim_step(pairs, ds[0]), ds.drop_first());
    }
}

/// Folding one more leg at the end applies it to the folded state.
pub proof fn lemma_sim_all_snoc(pairs: Seq<Pair>, ds: Seq<PairDelta>, d: PairDelta)
    ensures
        sim_all(pairs, ds.push(d)) == sim_step(sim_all(pairs, ds), d),
    decreases ds.len(),
{
    if ds.len() == 0 {
        assert(ds.push(d)[0] == d);
        assert(ds.push(d).drop_first() =~= Seq::<PairDelta>::empty());
        assert(sim_all(sim_step(pairs, d), Seq::<PairDelta>::empty()) == sim_step(pairs, d));
    } else {
        assert(ds.push(d)[0] == ds[0]);
        assert(ds.push(d).drop_first() =~= ds.drop_first().push(d));
        lemma_sim_all_snoc(sim_step(pairs, ds[0]), ds.drop_first(), d);
        assert(sim_all(pairs, ds.push(d)) == sim_all(
            sim_step(pairs, ds[0]),
            ds.drop_first().push(d),
        ));
    }
}

/// The snapshot of one more leg at the end is the snapshot so far plus the
/// entry taken from the folded state.
pub proof fn lemma_snap_all_snoc(pairs: Seq<Pair>, ds: Seq<PairDelta>, d: PairDelta)
    ensures
        snap_all(pairs, ds.push(d)) == snap_all(pairs, ds).push(
            snap_entry(sim_all(pairs, ds), d),
        ),
    decreases ds.len(),
{
    if ds.len() == 0 {
        assert(ds.push(d)[0] == d);
        assert(ds.push(d).drop_first() =~= Seq::<PairDelta>::empty());
        assert(snap_all(sim_step(pairs, d), Seq::<PairDelta>::empty())
            =~= Seq::<ReserveSnapshot>::empty());
        assert(sim_all(pairs, ds) == pairs);
        assert(snap_all(pairs, ds.push(d)) =~= snap_all(pairs, ds).push(
            snap_entry(sim_all(pairs, ds), d),
        ));
    } else {
        assert(ds.push(d)[0] == ds[0]);
        assert(ds.push(d).drop_first() =~= ds.drop_first().push(d));
        lemma_snap_all_snoc(sim_step(pairs, ds[0]), ds.drop_first(), d);
        lemma_sim_all_snoc(pairs, ds, d);
        assert(snap_all(pairs, ds.push(d)) == seq![snap_entry(pairs, ds[0])] + snap_all(
            sim_step(pairs, ds[0]),
            ds.drop_first().push(d),
        ));
        assert(snap_all(pairs, ds.push(d)) =~= snap_all(pairs, ds).push(
            snap_entry(sim_all(pairs, ds), d),
        ));
    }
}

impl Protocol {
    /// Apply the predicted reserve movements of one pending swap, leg by
    /// leg, and return the snapshot that undoes them. When any leg's key
    /// does not resolve, nothing is changed and `PairMissing` comes back.
    pub fn simulate(&mut self, deltas: &Vec<PairDelta>) -> (r: Result<
        Vec<ReserveSnapshot>,
        ArbitrageError,
    >)
        ensures
            final(self).factory == old(self).factory,
            final(self).router == old(self).router,
            final(self).swap_fee == old(self).swap_fee,
            match r {
                Ok(snaps) => deltas_resolve(old(self).pairs@, deltas@) && final(self).pairs@
                    == sim_all(old(self).pairs@, deltas@) && snaps@ == snap_all(
                    old(self).pairs@,
                    deltas@,
                ),
                Err(e) => e == ArbitrageError::PairMissing && !deltas_resolve(
                    old(self).pairs@,
                    deltas@,
                ) && final(self).pairs@ == old(self).pairs@,
            },
    {
        let n = deltas.len();
        let mut i: usize = 0;
        while i < n
            invariant
                n == deltas@.len(),
                i <= n,
                *self == *old(self),
                forall|j: int|
                    0 <= j < i ==> pair_slot(
                        self.pairs@,
                        #[trigger] deltas@[j].spec_key().0,
                        deltas@[j].spec_key().1,
                    ) != -1,
            decreases n - i,
        {
            let d = deltas[i];
            let (k0, k1) = crate::address::sort_address_pair(d.token_in, d.token_out);
            proof {
                assert((k0, k1) == deltas@[i as int].spec_key());
            }
            if self.find_pair(&k0, &k1).is_none() {
                proof {
                    assert(pair_slot(
                        old(self).pairs@,
                        deltas@[i as int].spec_key().0,
                        deltas@[i as int].spec_key().1,
                    ) == -1);
                }
                return Err(ArbitrageError::PairMissing);
            }
            i = i + 1;
        }
        let ghost orig = self.pairs@;
        let mut snaps: Vec<ReserveSnapshot> = Vec::new();
        let mut i: usize = 0;
        while i < n
            invariant
                n == deltas@.len(),
                i <= n,
                deltas_resolve(orig, deltas@),
                self.factory == old(self).factory,
                self.router == old(self).router,
                self.swap_fee == old(self).swap_fee,
                orig == old(self).pairs@,
                self.pairs@ == sim_all(orig, deltas@.take(i as int)),
                snaps@ == snap_all(orig, deltas@.take(i as int)),
            decreases n - i,
        {
            let ghost prefix = deltas@.take(i as int);
            proof {
                lemma_sim_all_same_keys(orig, prefix);
                lemma_pair_slot_same_keys(
                    orig,
                    self.pairs@,
                    deltas@[i as int].spec_key().0,
                    deltas@[i as int].spec_key().1,
                );
            }
            let d = deltas[i];
            let (k0, k1) = crate::address::sort_address_pair(d.token_in, d.token_out);
            let idx = match self.find_pair(&k0, &k1) {
                Some(idx) => idx,
                None => {
                    proof {
                        assert(false);
                    }
                    return Err(ArbitrageError::PairMissing);
                },
            };
            let p = self.pairs[idx];
            snaps.push(ReserveSnapshot { index: idx, reserve0: p.reserve0, reserve1: p.reserve1 });
            let updated = if d.token_in == p.token0 {
                Pair {
                    reserve0: if p.reserve0 > u128::MAX - d.amount_in {
                        u128::MAX
                    } else {
                        p.reserve0 + d.amount_in
                    },
                    reserve1: if p.reserve1 < d.amount_out {
                        0
                    } else {
                        p.reserve1 - d.amount_out
                    },
                    ..p
                }
            } else {
                Pair {
                    reserve1: if p.reserve1 > u128::MAX - d.amount_in {
                        u128::MAX
                    } else {
                        p.reserve1 + d.amount_in
                    },
                    reserve0: if p.reserve0 < d.amount_out {
                        0
                    } else {
                        p.reserve0 - d.amount_out
                    },
                    ..p
                }
            };
            self.pairs.set(idx, updated);
            proof {
                assert(deltas@.take(i + 1) =~= prefix.push(deltas@[i as int]));
                lemma_sim_all_snoc(orig, prefix, deltas@[i as int]);
                lemma_snap_all_snoc(orig, prefix, deltas@[i as int]);
            }
            i = i + 1;
        }
        proof {
            assert(deltas@.take(n as int) =~= deltas@);
        }
        Ok(snaps)
    }

    /// Roll a simulation back by writing its snapshot entries back in
    /// reverse order: the entry taken first is written last, so nested and
    /// repeated legs on one pool undo exactly.
    pub fn unsimulate(&mut self, snaps: &Vec<ReserveSnapshot>)
        ensures
            final(self).factory == old(self).factory,
            final(self).router == old(self).router,
            final(self).swap_fee == old(self).swap_fee,
            final(self).pairs@ == restore_all(old(self).pairs@, snaps@),
    {
        let ghost orig = self.pairs@;
        let mut j: usize = snaps.len();
        while j > 0
            invariant
                j <= snaps@.len(),
                self.factory == old(self).factory,
                self.router == old(self).router,
                self.swap_fee == old(self).swap_fee,
                orig == old(self).pairs@,
                self.pairs@ == restore_all(orig, snaps@.skip(j as int)),
            decreases j,
        {
            j = j - 1;
            let ghost before = self.pairs@;
            let s = snaps[j];
            if s.index < self.pairs.len() {
                let p = self.pairs[s.index];
                self.pairs.set(s.index, Pair { reserve0: s.reserve0, reserve1: s.reserve1, ..p });
            }
            proof {
                assert(snaps@.skip(j as int).drop_first() =~= snaps@.skip(j as int + 1));
                assert(snaps@.skip(j as int)[0] == snaps@[j as int]);
                assert(self.pairs@ == restore_step(before, snaps@[j as int]));
            }
        }
        proof {
            assert(snaps@.skip(0) =~= snaps@);
        }
    }
}

/// Undoing one simulation restores every pair bit-for-bit: writing the
/// snapshot back in reverse order is the exact inverse of applying the
/// legs, whatever the legs were.
pub proof fn lemma_unsimulate_reverts(pairs: Seq<Pair>, ds: Seq<PairDelta>)
    requires
        deltas_resolve(pairs, ds),
        pairs.len() <= usize::MAX,
    ensures
        restore_all(sim_all(pairs, ds), snap_all(pairs, ds)) == pairs,
    decreases ds.len(),
{
    if ds.len() > 0 {
        let d = ds[0];
        let key = d.spec_key();
        let i = pair_slot(pairs, key.0, key.1);
        let p1 = sim_step(pairs, d);
        let s0 = snap_entry(pairs, d);
        let rest = ds.drop_first();
        lemma_pair_slot_bounds(pairs, key.0, key.1);
        lemma_sim_step_same_keys(pairs, d);
        assert(s0.index as int == i);
        assert forall|j: int|
            0 <= j < rest.len() implies pair_slot(
            p1,
            #[trigger] rest[j].spec_key().0,
            rest[j].spec_key().1,
        ) != -1 by {
            assert(rest[j] == ds[j + 1]);
            lemma_pair_slot_same_keys(pairs, p1, rest[j].spec_key().0, rest[j].spec_key().1);
        }
        lemma_unsimulate_reverts(p1, rest);
        let snaps = snap_all(pairs, ds);
        assert(snaps.drop_first() =~= snap_all(p1, rest));
        assert(snaps[0] == s0);
        assert(restore_all(sim_all(p1, rest), snaps.drop_first()) == p1);
        assert(restore_step(p1, s0) =~= pairs) by {
            assert(p1.len() == pairs.len());
            assert(restore_step(p1, s0)[i] == pairs[i]);
            assert(forall|k: int|
                0 <= k < pairs.len() && k != i ==> restore_step(p1, s0)[k] == pairs[k]);
        }
    }
}

/// Undoing nested simulations in reverse order restores the original list:
/// the inner rollback first, then the outer one.
pub proof fn lemma_nested_simulations_revert(
    pairs: Seq<Pair>,
    outer: Seq<PairDelta>,
    inner: Seq<PairDelta>,
)
    requires
        deltas_resolve(pairs, outer),
        deltas_resolve(sim_all(pairs, outer), inner),
        pairs.len() <= usize::MAX,
    ensures
        restore_all(
            restore_all(
                sim_all(sim_all(pairs, outer), inner),
                snap_all(sim_all(pairs, outer), inner),
            ),
            snap_all(pairs, outer),
        ) == pairs,
{
    lemma_sim_all_same_keys(pairs, outer);
    lemma_unsimulate_reverts(sim_all(pairs, outer), inner);
    lemma_unsimulate_reverts(pairs, outer);
}

/// First slot whose protocol has the factory, or `-1`.
pub open spec fn protocol_slot(ps: Seq<Protocol>, factory: Address) -> int
    decreases ps.len(),
{
    if ps.len() == 0 {
        -1
    } else if ps[0].factory == factory {
        0
    } else {
        let rest = protocol_slot(ps.drop_first(), factory);
        if rest == -1 {
            -1
        } else {
            rest + 1
        }
    }
}

/// All pairs of a protocol list, in slot order.
pub open spec fn protocols_pairs(ps: Seq<Protocol>) -> Seq<Pair>
    decreases ps.len(),
{
    if ps.len() == 0 {
        Seq::empty()
    } else {
        ps[0].pairs@ + protocols_pairs(ps.drop_first())
    }
}

/// Appending one protocol appends its pairs.
pub proof fn lemma_protocols_pairs_snoc(ps: Seq<Protocol>, p: Protocol)
    ensures
        protocols_pairs(ps.push(p)) == protocols_pairs(ps) + p.pairs@,
    decreases ps.len(),
{
    if ps.len() == 0 {
        assert(ps.push(p)[0] == p);
        assert(ps.push(p).drop_first() =~= Seq::<Protocol>::empty());
        assert(protocols_pairs(Seq::<Protocol>::empty()) == Seq::<Pair>::empty());
        assert(protocols_pairs(ps.push(p)) =~= protocols_pairs(ps) + p.pairs@);
    } else {
        assert(ps.push(p)[0] == ps[0]);
        assert(ps.push(p).drop_first() =~= ps.drop_first().push(p));
        lemma_protocols_pairs_snoc(ps.drop_first(), p);
        assert(protocols_pairs(ps.push(p)) =~= protocols_pairs(ps) + p.pairs@);
    }
}

/// The set of all protocols keyed by factory address, plus hand-configured
/// custom pairs that join the graph but never simulation.
#[derive(Debug)]
pub struct PairRegistry {
    /// One protocol per factory.
    pub protocols: Vec<Protocol>,
    /// Extra pools outside any registered protocol.
    pub custom_pairs: Vec<Pair>,
}

impl PairRegistry {
    /// Structural invariant: protocols are well-formed with unique
    /// factories, custom pairs are well-formed.
    pub open spec fn wf(self) -> bool {
        &&& forall|i: int| 0 <= i < self.protocols@.len() ==> (#[trigger] self.protocols@[i]).wf()
        &&& forall|i: int, j: int|
            0 <= i < j < self.protocols@.len() ==> (#[trigger] self.protocols@[i]).factory != (
            #[trigger] self.protocols@[j]).factory
        &&& forall|i: int|
            0 <= i < self.custom_pairs@.len() ==> (#[trigger] self.custom_pairs@[i]).wf()
    }

    /// Every pair in the registry, protocol pairs first, custom pairs last.
    pub open spec fn all_pairs(self) -> Seq<Pair> {
        protocols_pairs(self.protocols@) + self.custom_pairs@
    }

    /// An empty registry.
    pub fn new() -> (r: PairRegistry)
        ensures
            r.wf(),
            r.protocols@.len() == 0,
            r.custom_pairs@.len() == 0,
    {
        PairRegistry { protocols: Vec::new(), custom_pairs: Vec::new() }
    }

    /// Slot of the protocol with this factory, if any.
    pub fn find_protocol(&self, factory: &Address) -> (r: Option<usize>)
        ensures
            match r {
                Some(i) => i < self.protocols@.len() && protocol_slot(self.protocols@, *factory)
                    == i as int && self.protocols@[i as int].factory == *factory,
                None => protocol_slot(self.protocols@, *factory) == -1,
            },
    {
        let mut i: usize = 0;
        while i < self.protocols.len()
            invariant
                i <= self.protocols@.len(),
                forall|k: int| 0 <= k < i ==> (#[trigger] self.protocols@[k]).factory != *factory,
            decreases self.protocols@.len() - i,
        {
            if self.protocols[i].factory == *factory {
                proof {
                    lemma_protocol_slot_found(self.protocols@, *factory, i as int);
                }
                return Some(i);
            }
            i = i + 1;
        }
        proof {
            lemma_protocol_slot_missing(self.protocols@, *factory);
        }
        None
    }

    /// Slot of the first protocol whose router is this address, if any:
    /// how a pending call's `to` field is dispatched.
    pub fn find_router(&self, router: &Address) -> (r: Option<usize>)
        ensures
            match r {
                Some(i) => i < self.protocols@.len() && self.protocols@[i as int].router
                    == *router && forall|k: int|
                    0 <= k < i ==> (#[trigger] self.protocols@[k]).router != *router,
                None => forall|k: int|
                    0 <= k < self.protocols@.len() ==> (#[trigger] self.protocols@[k]).router
                        != *router,
            },
    {
        let mut i: usize = 0;
        while i < self.protocols.len()
            invariant
                i <= self.protocols@.len(),
                forall|k: int| 0 <= k < i ==> (#[trigger] self.protocols@[k]).router != *router,
            decreases self.protocols@.len() - i,
        {
            if self.protocols[i].router == *router {
                return Some(i);
            }
            i = i + 1;
        }
        None
    }

    /// Register a protocol under its factory address; a second protocol
    /// with the same factory is refused.
    pub fn add_protocol(&mut self, p: Protocol) -> (r: Result<(), ArbitrageError>)
        requires
            old(self).wf(),
            p.wf(),
        ensures
            final(self).wf(),
            final(self).custom_pairs@ == old(self).custom_pairs@,
            match r {
                Ok(()) => protocol_slot(old(self).protocols@, p.factory) == -1
                    && final(self).protocols@ == old(self).protocols@.push(p),
                Err(e) => e == ArbitrageError::ProtocolMissing
                    && protocol_slot(old(self).protocols@, p.factory) != -1
                    && final(self).protocols@ == old(self).protocols@,
            },
    {
        if self.find_protocol(&p.factory).is_some() {
            return Err(ArbitrageError::ProtocolMissing);
        }
        proof {
            lemma_protocol_slot_absent(self.protocols@, p.factory);
        }
        self.protocols.push(p);
        Ok(())
    }

    /// Add a hand-configured pair.
    pub fn add_custom_pair(&mut self, pair: Pair)
        requires
            old(self).wf(),
            pair.wf(),
        ensures
            final(self).wf(),
            final(self).protocols@ == old(self).protocols@,
            final(self).custom_pairs@ == old(self).custom_pairs@.push(pair),
    {
        self.custom_pairs.push(pair);
    }

    /// Every pair of every protocol, then every custom pair: the flat list
    /// the graph is built from.
    pub fn get_all_pairs(&self) -> (r: Vec<Pair>)
        ensures
            r@ == self.all_pairs(),
    {
        let mut out: Vec<Pair> = Vec::new();
        let n = self.protocols.len();
        let mut i: usize = 0;
        proof {
            assert(self.protocols@.take(0) =~= Seq::<Protocol>::empty());
        }
        while i < n
            invariant
                n == self.protocols@.len(),
                i <= n,
                out@ == protocols_pairs(self.protocols@.take(i as int)),
            decreases n - i,
        {
            let m = self.protocols[i].pairs.len();
            let mut j: usize = 0;
            while j < m
                invariant
                    i < n,
                    n == self.protocols@.len(),
                    m == self.protocols@[i as int].pairs@.len(),
                    j <= m,
                    out@ == protocols_pairs(self.protocols@.take(i as int)) + self.protocols@[
                        i as int
                    ].pairs@.take(j as int),
                decreases m - j,
            {
                out.push(self.protocols[i].pairs[j]);
                proof {
                    assert(self.protocols@[i as int].pairs@.take(j + 1)
                        =~= self.protocols@[i as int].pairs@.take(j as int).push(
                        self.protocols@[i as int].pairs@[j as int],
                    ));
                    assert(out@ == protocols_pairs(self.protocols@.take(i as int))
                        + self.protocols@[i as int].pairs@.take(j + 1));
                }
                j = j + 1;
            }
            proof {
                assert(self.protocols@[i as int].pairs@.take(m as int)
                    =~= self.protocols@[i as int].pairs@);
                assert(self.protocols@.take(i + 1) =~= self.protocols@.take(i as int).push(
                    self.protocols@[i as int],
                ));
                lemma_protocols_pairs_snoc(
                    self.protocols@.take(i as int),
                    self.protocols@[i as int],
                );
            }
            i = i + 1;
        }
        proof {
            assert(self.protocols@.take(n as int) =~= self.protocols@);
        }
        let m = self.custom_pairs.len();
        let mut j: usize = 0;
        while j < m
            invariant
                m == self.custom_pairs@.len(),
                j <= m,
                out@ == protocols_pairs(self.protocols@) + self.custom_pairs@.take(j as int),
            decreases m - j,
        {
            out.push(self.custom_pairs[j]);
            proof {
                assert(self.custom_pairs@.take(j + 1) =~= self.custom_pairs@.take(j as int).push(
                    self.custom_pairs@[j as int],
                ));
            }
            j = j + 1;
        }
        proof {
            assert(self.custom_pairs@.take(m as int) =~= self.custom_pairs@);
        }
        out
    }
}

/// If nothing before `i` matches and slot `i` does, `protocol_slot` is `i`.
pub proof fn lemma_protocol_slot_found(ps: Seq<Protocol>, factory: Address, i: int)
    requires
        0 <= i < ps.len(),
        forall|k: int| 0 <= k < i ==> (#[trigger] ps[k]).factory != factory,
        ps[i].factory == factory,
    ensures
        protocol_slot(ps, factory) == i,
    decreases ps.len(),
{
    if i > 0 {
        assert(ps.drop_first()[i - 1] == ps[i]);
        assert forall|k: int| 0 <= k < i - 1 implies (#[trigger] ps.drop_first()[k]).factory
            != factory by {
            assert(ps.drop_first()[k] == ps[k + 1]);
        }
        lemma_protocol_slot_found(ps.drop_first(), factory, i - 1);
    }
}

/// If no slot matches, `protocol_slot` is `-1`.
pub proof fn lemma_protocol_slot_missing(ps: Seq<Protocol>, factory: Address)
    requires
        forall|k: int| 0 <= k < ps.len() ==> (#[trigger] ps[k]).factory != factory,
    ensures
        protocol_slot(ps, factory) == -1,
    decreases ps.len(),
{
    if ps.len() > 0 {
        assert forall|k: int|
            0 <= k < ps.drop_first().len() implies (#[trigger] ps.drop_first()[k]).factory
            != factory by {
            assert(ps.drop_first()[k] == ps[k + 1]);
        }
        lemma_protocol_slot_missing(ps.drop_first(), factory);
    }
}

/// An unresolved factory matches no slot at all.
pub proof fn lemma_protocol_slot_absent(ps: Seq<Protocol>, factory: Address)
    requires
        protocol_slot(ps, factory) == -1,
    ensures
        forall|k: int| 0 <= k < ps.len() ==> (#[trigger] ps[k]).factory != factory,
    decreases ps.len(),
{
    if ps.len() > 0 {
        assert(ps[0].factory != factory);
        lemma_protocol_slot_bounds(ps.drop_first(), factory);
        assert(protocol_slot(ps.drop_first(), factory) == -1);
        lemma_protocol_slot_absent(ps.drop_first(), factory);
        assert forall|k: int| 0 <= k < ps.len() implies (#[trigger] ps[k]).factory != factory by {
            if k > 0 {
                assert(ps.drop_first()[k - 1] == ps[k]);
            }
        }
    }
}

/// A resolved slot is in bounds and holds the factory; `-1` otherwise.
pub proof fn lemma_protocol_slot_bounds(ps: Seq<Protocol>, factory: Address)
    ensures
        protocol_slot(ps, factory) == -1 || (0 <= protocol_slot(ps, factory) < ps.len()
            && ps[protocol_slot(ps, factory)].factory == factory),
    decreases ps.len(),
{
    if ps.len() > 0 {
        lemma_protocol_slot_bounds(ps.drop_first(), factory);
    }
}

/// Every pair owned by a protocol resolves back to itself: the factory
/// finds the protocol, and the key finds the pair.
pub proof fn lemma_protocol_pair_resolves(reg: PairRegistry, pi: int, si: int)
    requires
        reg.wf(),
        0 <= pi < reg.protocols@.len(),
        0 <= si < reg.protocols@[pi].pairs@.len(),
    ensures
        protocol_slot(reg.protocols@, reg.protocols@[pi].pairs@[si].factory) == pi,
        pair_slot(
            reg.protocols@[pi].pairs@,
            reg.protocols@[pi].pairs@[si].token0,
            reg.protocols@[pi].pairs@[si].token1,
        ) == si,
{
    let p = reg.protocols@[pi].pairs@[si];
    let pairs = reg.protocols@[pi].pairs@;
    assert(reg.protocols@[pi].wf());
    assert(p.factory == reg.protocols@[pi].factory);
    lemma_protocol_slot_found_unique(reg.protocols@, p.factory, pi);
    assert forall|k: int| 0 <= k < si implies !((#[trigger] pairs[k]).token0 == p.token0
        && pairs[k].token1 == p.token1) by {
        assert(!(pairs[k].token0 == pairs[si].token0 && pairs[k].token1 == pairs[si].token1));
    }
    lemma_pair_slot_found(pairs, p.token0, p.token1, si);
}

/// With unique factories, the slot holding a factory is where
/// `protocol_slot` lands.
pub proof fn lemma_protocol_slot_found_unique(ps: Seq<Protocol>, factory: Address, i: int)
    requires
        0 <= i < ps.len(),
        ps[i].factory == factory,
        forall|a: int, b: int|
            0 <= a < b < ps.len() ==> (#[trigger] ps[a]).factory != (#[trigger] ps[b]).factory,
    ensures
        protocol_slot(ps, factory) == i,
{
    assert forall|k: int| 0 <= k < i implies (#[trigger] ps[k]).factory != factory by {
        assert(ps[k].factory != ps[i].factory);
    }
    lemma_protocol_slot_found(ps, factory, i);
}

/// One simulation step moves reserves only: every other field of every
/// pair stays where it is.
pub proof fn lemma_sim_step_static(pairs: Seq<Pair>, d: PairDelta)
    ensures
        sim_step(pairs, d).len() == pairs.len(),
        forall|i: int|
            0 <= i < pairs.len() ==> {
                let q = #[trigger] sim_step(pairs, d)[i];
                q.address == pairs[i].address && q.factory == pairs[i].factory && q.token0
                    == pairs[i].token0 && q.token1 == pairs[i].token1 && q.fee == pairs[i].fee
            },
{
    let key = d.spec_key();
    lemma_pair_slot_bounds(pairs, key.0, key.1);
}

/// A whole simulation moves reserves only.
pub proof fn lemma_sim_all_static(pairs: Seq<Pair>, ds: Seq<PairDelta>)
    ensures
        sim_all(pairs, ds).len() == pairs.len(),
        forall|i: int|
            0 <= i < pairs.len() ==> {
                let q = #[trigger] sim_all(pairs, ds)[i];
                q.address == pairs[i].address && q.factory == pairs[i].factory && q.token0
                    == pairs[i].token0 && q.token1 == pairs[i].token1 && q.fee == pairs[i].fee
            },
    decreases ds.len(),
{
    if ds.len() > 0 {
        lemma_sim_step_static(pairs, ds[0]);
        lemma_sim_all_static(sim_step(pairs, ds[0]), ds.drop_first());
    }
}

/// A protocol that differs from a well-formed one only in reserves is
/// well-formed.
pub proof fn lemma_protocol_wf_static(a: Protocol, b: Protocol)
    requires
        a.wf(),
        b.factory == a.factory,
        b.pairs@.len() == a.pairs@.len(),
        forall|i: int|
            0 <= i < a.pairs@.len() ==> {
                let q = #[trigger] b.pairs@[i];
                q.factory == a.pairs@[i].factory && q.token0 == a.pairs@[i].token0 && q.token1
                    == a.pairs@[i].token1 && q.fee == a.pairs@[i].fee
            },
    ensures
        b.wf(),
{
    assert forall|i: int| 0 <= i < b.pairs@.len() implies (#[trigger] b.pairs@[i]).wf() by {
        assert(a.pairs@[i].wf());
    }
}

/// Replacing one protocol by one with as many pairs keeps the flattened
/// pair count.
pub proof fn lemma_protocols_pairs_update_len(ps: Seq<Protocol>, pi: int, q: Protocol)
    requires
        0 <= pi < ps.len(),
        q.pairs@.len() == ps[pi].pairs@.len(),
    ensures
        protocols_pairs(ps.update(pi, q)).len() == protocols_pairs(ps).len(),
    decreases ps.len(),
{
    if pi == 0 {
        assert(ps.update(0, q)[0] == q);
        assert(ps.update(0, q).drop_first() =~= ps.drop_first());
    } else {
        assert(ps.update(pi, q)[0] == ps[0]);
        assert(ps.update(pi, q).drop_first() =~= ps.drop_first().update(pi - 1, q));
        lemma_protocols_pairs_update_len(ps.drop_first(), pi - 1, q);
    }
}

/// Each element of the flattened pair list comes from some protocol slot.
pub proof fn lemma_protocols_pairs_elem(ps: Seq<Protocol>, k: int)
    requires
        0 <= k < protocols_pairs(ps).len(),
    ensures
        exists|pi: int, si: int|
            #![trigger ps[pi].pairs@[si]]
            0 <= pi < ps.len() && 0 <= si < ps[pi].pairs@.len() && protocols_pairs(ps)[k]
                == ps[pi].pairs@[si],
    decreases ps.len(),
{
    if k < ps[0].pairs@.len() {
        assert(protocols_pairs(ps)[k] == ps[0].pairs@[k]);
        assert(0 <= 0 < ps.len() && 0 <= k < ps[0int].pairs@.len() && protocols_pairs(ps)[k]
            == ps[0int].pairs@[k]);
    } else {
        let k2 = k - ps[0].pairs@.len();
        assert(protocols_pairs(ps)[k] == protocols_pairs(ps.drop_first())[k2]);
        lemma_protocols_pairs_elem(ps.drop_first(), k2);
        let (pi, si) = choose|pi: int, si: int|
            #![trigger ps.drop_first()[pi].pairs@[si]]
            0 <= pi < ps.drop_first().len() && 0 <= si < ps.drop_first()[pi].pairs@.len()
                && protocols_pairs(ps.drop_first())[k2] == ps.drop_first()[pi].pairs@[si];
        assert(ps.drop_first()[pi] == ps[pi + 1]);
        assert(0 <= pi + 1 < ps.len() && 0 <= si < ps[pi + 1].pairs@.len() && protocols_pairs(
            ps,
        )[k] == ps[pi + 1].pairs@[si]);
    }
}

/// Every pair of a well-formed registry is well-formed.
pub proof fn lemma_all_pairs_wf(reg: PairRegistry)
    requires
        reg.wf(),
    ensures
        forall|k: int| 0 <= k < reg.all_pairs().len() ==> (#[trigger] reg.all_pairs()[k]).wf(),
{
    assert forall|k: int|
        0 <= k < reg.all_pairs().len() implies (#[trigger] reg.all_pairs()[k]).wf() by {
        let pp = protocols_pairs(reg.protocols@);
        if k < pp.len() {
            lemma_protocols_pairs_elem(reg.protocols@, k);
        } else {
            assert(reg.all_pairs()[k] == reg.custom_pairs@[k - pp.len()]);
        }
    }
}

/// Whether `needle` occurs in the list.
pub fn address_in_list(list: &Vec<Address>, needle: &Address) -> (r: bool)
    ensures
        r == list@.contains(*needle),
{
    let mut i: usize = 0;
    while i < list.len()
        invariant
            i <= list@.len(),
            forall|k: int| 0 <= k < i ==> list@[k] != *needle,
        decreases list@.len() - i,
    {
        if list[i] == *needle {
            return true;
        }
        i = i + 1;
    }
    false
}

/// Recompute the catalog's exclusion flags from the current blacklist: a
/// row is excluded exactly when either of its tokens is blacklisted. The
/// computation reads only the current blacklist, so re-running it is
/// idempotent.
pub fn compute_exclusions(rows: &Vec<(Address, Address)>, blacklist: &Vec<Address>) -> (r: Vec<
    bool,
>)
    ensures
        r@.len() == rows@.len(),
        forall|i: int|
            0 <= i < rows@.len() ==> r@[i] == (blacklist@.contains(#[trigger] rows@[i].0)
                || blacklist@.contains(rows@[i].1)),
{
    let mut out: Vec<bool> = Vec::new();
    let mut i: usize = 0;
    while i < rows.len()
        invariant
            i <= rows@.len(),
            out@.len() == i,
            forall|k: int|
                0 <= k < i ==> out@[k] == (blacklist@.contains(#[trigger] rows@[k].0)
                    || blacklist@.contains(rows@[k].1)),
        decreases rows@.len() - i,
    {
        let (t0, t1) = rows[i];
        let excluded = address_in_list(blacklist, &t0) || address_in_list(blacklist, &t1);
        out.push(excluded);
        i = i + 1;
    }
    out
}

/// The index range of newly deployed pools to fetch: from the persisted
/// count up to the on-chain count, or nothing when the catalog is current.
pub fn new_pair_range(stored: u32, onchain: u32) -> (r: Option<(u32, u32)>)
    ensures
        stored < onchain ==> r == Some::<(u32, u32)>((stored, onchain)),
        stored >= onchain ==> r is None,
{
    if stored < onchain {
        Some((stored, onchain))
    } else {
        None
    }
}

/// No slot before `upto` matches `(t0, t1)`.
pub open spec fn pair_slot_partial_none(pairs: Seq<Pair>, t0: Address, t1: Address, upto: int) -> bool {
    forall|k: int|
        0 <= k < upto ==> !((#[trigger] pairs[k]).token0 == t0 && pairs[k].token1 == t1)
}

/// If nothing before `i` matches and slot `i` does, `pair_slot` is `i`.
pub proof fn lemma_pair_slot_found(pairs: Seq<Pair>, t0: Address, t1: Address, i: int)
    requires
        0 <= i < pairs.len(),
        pair_slot_partial_none(pairs, t0, t1, i),
        pairs[i].token0 == t0,
        pairs[i].token1 == t1,
    ensures
        pair_slot(pairs, t0, t1) == i,
    decreases pairs.len(),
{
    if i > 0 {
        assert(pairs.drop_first()[i - 1] == pairs[i]);
        assert forall|k: int| 0 <= k < i - 1 implies !((#[trigger] pairs.drop_first()[k]).token0
            == t0 && pairs.drop_first()[k].token1 == t1) by {
            assert(pairs.drop_first()[k] == pairs[k + 1]);
        }
        lemma_pair_slot_found(pairs.drop_first(), t0, t1, i - 1);
    }
}

/// If no slot at all matches, `pair_slot` is `-1`.
pub proof fn lemma_pair_slot_missing(pairs: Seq<Pair>, t0: Address, t1: Address)
    requires
        pair_slot_partial_none(pairs, t0, t1, pairs.len() as int),
    ensures
        pair_slot(pairs, t0, t1) == -1,
    decreases pairs.len(),
{
    if pairs.len() > 0 {
        assert forall|k: int|
            0 <= k < pairs.drop_first().len() implies !((#[trigger] pairs.drop_first()[k]).token0
            == t0 && pairs.drop_first()[k].token1 == t1) by {
            assert(pairs.drop_first()[k] == pairs[k + 1]);
        }
        lemma_pair_slot_missing(pairs.drop_first(), t0, t1);
    }
}

/// Replacing the pair in its own slot with one of the same key keeps that
/// slot resolvable.
pub proof fn lemma_pair_slot_update_same_key(
    pairs: Seq<Pair>,
    t0: Address,
    t1: Address,
    i: int,
    fresh: Pair,
)
    requires
        0 <= i < pairs.len(),
        pair_slot(pairs, t0, t1) == i,
        fresh.token0 == t0,
        fresh.token1 == t1,
    ensures
        pair_slot(pairs.update(i, fresh), t0, t1) == i,
    decreases pairs.len(),
{
    lemma_pair_slot_bounds(pairs, t0, t1);
    if i == 0 {
    } else {
        assert(pairs.update(i, fresh)[0] == pairs[0]);
        assert(pairs.update(i, fresh).drop_first() =~= pairs.drop_first().update(i - 1, fresh));
        lemma_pair_slot_update_same_key(pairs.drop_first(), t0, t1, i - 1, fresh);
    }
}

/// Appending a pair with key `(t0, t1)` to a list where the key is absent
/// makes the last slot resolve.
pub proof fn lemma_pair_slot_push(pairs: Seq<Pair>, t0: Address, t1: Address, fresh: Pair)
    requires
        pair_slot(pairs, t0, t1) == -1,
        fresh.token0 == t0,
        fresh.token1 == t1,
    ensures
        pair_slot(pairs.push(fresh), t0, t1) == pairs.len(),
    decreases pairs.len(),
{
    if pairs.len() == 0 {
        assert(pairs.push(fresh)[0] == fresh);
    } else {
        assert(!(pairs[0].token0 == t0 && pairs[0].token1 == t1));
        lemma_pair_slot_bounds(pairs.drop_first(), t0, t1);
        assert(pair_slot(pairs.drop_first(), t0, t1) == -1);
        assert(pairs.push(fresh)[0] == pairs[0]);
        assert(pairs.push(fresh).drop_first() =~= pairs.drop_first().push(fresh));
        lemma_pair_slot_push(pairs.drop_first(), t0, t1, fresh);
    }
}

/// An unresolved key matches no slot at all.
pub proof fn lemma_pair_slot_absent(pairs: Seq<Pair>, t0: Address, t1: Address)
    requires
        pair_slot(pairs, t0, t1) == -1,
    ensures
        pair_slot_partial_none(pairs, t0, t1, pairs.len() as int),
    decreases pairs.len(),
{
    if pairs.len() > 0 {
        assert(!(pairs[0].token0 == t0 && pairs[0].token1 == t1));
        lemma_pair_slot_bounds(pairs.drop_first(), t0, t1);
        assert(pair_slot(pairs.drop_first(), t0, t1) == -1);
        lemma_pair_slot_absent(pairs.drop_first(), t0, t1);
        assert forall|k: int| 0 <= k < pairs.len() implies !((#[trigger] pairs[k]).token0 == t0
            && pairs[k].token1 == t1) by {
            if k > 0 {
                assert(pairs.drop_first()[k - 1] == pairs[k]);
            }
        }
    }
}

/// A resolved slot is in bounds and holds the key; `-1` otherwise.
pub proof fn lemma_pair_slot_bounds(pairs: Seq<Pair>, t0: Address, t1: Address)
    ensures
        pair_slot(pairs, t0, t1) == -1 || (0 <= pair_slot(pairs, t0, t1) < pairs.len()
            && pairs[pair_slot(pairs, t0, t1)].token0 == t0
            && pairs[pair_slot(pairs, t0, t1)].token1 == t1),
    decreases pairs.len(),
{
    if pairs.len() > 0 {
        lemma_pair_slot_bounds(pairs.drop_first(), t0, t1);
    }
}

} // verus!
