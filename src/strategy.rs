//! Load-balancing strategies and the group tree they resolve.
use vstd::prelude::*;

use crate::address::BackendAddress;
use vstd::arithmetic::div_mod::{lemma_fundamental_div_mod, lemma_mod_multiples_vanish};

verus! {

broadcast use vstd::std_specs::vec::group_vec_axioms, vstd::seq::group_seq_axioms;

/// Sends a datagram to every child of its group.
#[derive(Clone, Copy, Debug)]
pub struct Duplicate {}

/// Sends a datagram to one child of its group at a time, in turn.
///
/// `next_index` is the cursor: the position of the child selected next. It is
/// taken modulo the number of children, so that it never indexes out of bounds.
#[derive(Clone, Copy, Debug)]
pub struct RoundRobin {
    pub next_index: usize,
}

/// How a group picks among its children.
#[derive(Clone, Copy, Debug)]
pub enum LoadBalancingStrategy {
    Duplicate(Duplicate),
    RoundRobin(RoundRobin),
    /// Reserved in the configuration shape; a group using it is refused when
    /// it is loaded.
    WeightedRoundRobin,
}

/// A child of a group: a backend, or a nested group.
#[derive(Debug)]
pub enum Destination {
    Address(BackendAddress),
    Group(LoadBalanceGroup),
}

/// A node of the strategy tree: a strategy and its ordered children.
#[derive(Debug)]
pub struct LoadBalanceGroup {
    pub strategy: LoadBalancingStrategy,
    pub destinations: Vec<Destination>,
}

/// Why a group cannot be loaded.
#[derive(Clone, Copy, Debug, PartialEq, Eq, Structural)]
pub enum ConfigError {
    /// A group has no children.
    EmptyGroup,
    /// A group uses a strategy that cannot be resolved.
    UnsupportedStrategy,
}

/// The position a round robin selects among `len` children.
pub open spec fn rr_index(rr: RoundRobin, len: nat) -> int {
    rr.next_index as int % len as int
}

/// The cursor a round robin holds after selecting among `len` children.
pub open spec fn rr_next(rr: RoundRobin, len: nat) -> usize {
    if rr_index(rr, len) + 1 >= len {
        0
    } else {
        (rr_index(rr, len) + 1) as usize
    }
}

// ---- loadability --------------------------------------------------------
/// The first reason, in a depth-first walk of the tree, for which `g` cannot
/// be loaded; `None` when it can.
pub open spec fn group_error(g: LoadBalanceGroup) -> Option<ConfigError>
    decreases g, 0nat,
{
    if g.destinations@.len() == 0 {
        Some(ConfigError::EmptyGroup)
    } else if g.strategy is WeightedRoundRobin {
        Some(ConfigError::UnsupportedStrategy)
    } else {
        dests_error(g.destinations@, g.destinations@.len())
    }
}

/// The first error among the first `n` of `ds`.
pub open spec fn dests_error(ds: Seq<Destination>, n: nat) -> Option<ConfigError>
    decreases ds, n,
{
    if n == 0 || n > ds.len() {
        None
    } else {
        match dests_error(ds, (n - 1) as nat) {
            Some(e) => Some(e),
            None => dest_error(ds[n - 1]),
        }
    }
}

pub open spec fn dest_error(d: Destination) -> Option<ConfigError>
    decreases d, 0nat,
{
    match d {
        Destination::Address(_) => None,
        Destination::Group(g) => group_error(g),
    }
}

/// A group that can be resolved: every group of the tree has children and a
/// supported strategy.
pub open spec fn group_wf(g: LoadBalanceGroup) -> bool {
    group_error(g) is None
}

// ---- resolution ---------------------------------------------------------
/// The backends that resolving `g` yields.
pub open spec fn group_result(g: LoadBalanceGroup) -> Seq<BackendAddress>
    decreases g, 0nat,
{
    let ds = g.destinations@;
    match g.strategy {
        LoadBalancingStrategy::Duplicate(_) => dests_result(ds, ds.len()),
        LoadBalancingStrategy::RoundRobin(rr) => {
            if ds.len() == 0 {
                Seq::empty()
            } else {
                dest_result(ds[rr_index(rr, ds.len())])
            }
        },
        LoadBalancingStrategy::WeightedRoundRobin => Seq::empty(),
    }
}

/// The results of the first `n` of `ds`, one after another.
pub open spec fn dests_result(ds: Seq<Destination>, n: nat) -> Seq<BackendAddress>
    decreases ds, n,
{
    if n == 0 || n > ds.len() {
        Seq::empty()
    } else {
        dests_result(ds, (n - 1) as nat) + dest_result(ds[n - 1])
    }
}

pub open spec fn dest_result(d: Destination) -> Seq<BackendAddress>
    decreases d, 0nat,
{
    match d {
        Destination::Address(a) => seq![a],
        Destination::Group(g) => group_result(g),
    }
}

/// `h` is what `g` becomes once resolved: every round robin that the
/// resolution passes through has moved its cursor on by one, and nothing
/// else has changed.
pub open spec fn group_advanced(g: LoadBalanceGroup, h: LoadBalanceGroup) -> bool
    decreases g, 0nat,
{
    let ds = g.destinations@;
    let es = h.destinations@;
    &&& es.len() == ds.len()
    &&& match g.strategy {
        LoadBalancingStrategy::Duplicate(_) => {
            &&& h.strategy == g.strategy
            &&& dests_advanced(ds, es, ds.len())
        },
        LoadBalancingStrategy::RoundRobin(rr) => {
            if ds.len() == 0 {
                h.strategy == g.strategy
            } else {
                let i = rr_index(rr, ds.len());
                &&& h.strategy == LoadBalancingStrategy::RoundRobin(
                    RoundRobin { next_index: rr_next(rr, ds.len()) },
                )
                &&& dest_advanced(ds[i], es[i])
                &&& forall|j: int| 0 <= j < ds.len() && j != i ==> es[j] == ds[j]
            }
        },
        LoadBalancingStrategy::WeightedRoundRobin => h.strategy == g.strategy && es == ds,
    }
}

/// Each of the first `n` of `ds` has become the one at the same place in `es`.
pub open spec fn dests_advanced(ds: Seq<Destination>, es: Seq<Destination>, n: nat) -> bool
    decreases ds, n,
{
    if n == 0 || n > ds.len() {
        true
    } else {
        &&& dests_advanced(ds, es, (n - 1) as nat)
        &&& dest_advanced(ds[n - 1], es[n - 1])
    }
}

pub open spec fn dest_advanced(d: Destination, e: Destination) -> bool
    decreases d, 0nat,
{
    match d {
        Destination::Address(_) => e == d,
        Destination::Group(g) => match e {
            Destination::Group(h) => group_advanced(g, h),
            Destination::Address(_) => false,
        },
    }
}

// ---- lemmas ---------------------------------------------------------------
proof fn lemma_dests_error_none(ds: Seq<Destination>, n: nat)
    requires
        n <= ds.len(),
    ensures
        dests_error(ds, n) is None <==> forall|j: int| 0 <= j < n ==> #[trigger] dest_error(ds[j]) is None,
    decreases n,
{
    if n > 0 {
        lemma_dests_error_none(ds, (n - 1) as nat);
        if forall|j: int| 0 <= j < n ==> #[trigger] dest_error(ds[j]) is None {
            assert(dests_error(ds, (n - 1) as nat) is None);
            assert(dest_error(ds[n - 1]) is None);
        }
        if dests_error(ds, n) is None {
            assert(dests_error(ds, (n - 1) as nat) is None);
        }
    }
}

proof fn lemma_dests_error_grows(ds: Seq<Destination>, m: nat, n: nat)
    requires
        m <= n <= ds.len(),
        dests_error(ds, m) is Some,
    ensures
        dests_error(ds, n) == dests_error(ds, m),
    decreases n,
{
    if n > m {
        lemma_dests_error_grows(ds, m, (n - 1) as nat);
    }
}

proof fn lemma_dests_advanced_all(ds: Seq<Destination>, es: Seq<Destination>, n: nat)
    requires
        n <= ds.len(),
    ensures
        dests_advanced(ds, es, n) <==> forall|j: int| 0 <= j < n ==> #[trigger] dest_advanced(ds[j], es[j]),
    decreases n,
{
    if n > 0 {
        lemma_dests_advanced_all(ds, es, (n - 1) as nat);
        if forall|j: int| 0 <= j < n ==> #[trigger] dest_advanced(ds[j], es[j]) {
            assert(dests_advanced(ds, es, (n - 1) as nat));
            assert(dest_advanced(ds[n - 1], es[n - 1]));
        }
        if dests_advanced(ds, es, n) {
            assert(dests_advanced(ds, es, (n - 1) as nat));
        }
    }
}

// ---- laws ---------------------------------------------------------------
/// A group without children is refused when loaded, so it is never resolved.
pub proof fn lemma_empty_group_refused(g: LoadBalanceGroup)
    requires
        g.destinations@.len() == 0,
    ensures
        group_error(g) == Some(ConfigError::EmptyGroup),
        !group_wf(g),
{
}

/// A weighted round robin with children is refused when loaded, as is every
/// tree that holds one as a child, so it is never resolved.
pub proof fn lemma_weighted_refused(g: LoadBalanceGroup, parent: LoadBalanceGroup, k: int)
    requires
        g.destinations@.len() > 0,
        g.strategy is WeightedRoundRobin,
        0 <= k < parent.destinations@.len(),
        parent.destinations@[k] == Destination::Group(g),
    ensures
        group_error(g) == Some(ConfigError::UnsupportedStrategy),
        !group_wf(g),
        !group_wf(parent),
{
    let ds = parent.destinations@;
    if !(parent.strategy is WeightedRoundRobin) {
        lemma_dests_error_none(ds, ds.len());
        assert(dest_error(ds[k]) is Some);
    }
}

/// A duplicate whose children are all backends resolves to exactly those
/// backends, in order, and is left as it was.
pub proof fn lemma_duplicate_of_backends(g: LoadBalanceGroup, h: LoadBalanceGroup)
    requires
        g.strategy is Duplicate,
        forall|j: int| 0 <= j < g.destinations@.len() ==> #[trigger] g.destinations@[j] is Address,
        group_advanced(g, h),
    ensures
        group_result(g) == g.destinations@.map_values(|d: Destination| d->Address_0),
        h.strategy == g.strategy,
        h.destinations@ == g.destinations@,
{
    let ds = g.destinations@;
    lemma_dests_result_backends(ds, ds.len());
    assert(ds.subrange(0, ds.len() as int) == ds);
    lemma_dests_advanced_all(ds, h.destinations@, ds.len());
    assert forall|j: int| 0 <= j < ds.len() implies h.destinations@[j] == ds[j] by {
        assert(dest_advanced(ds[j], h.destinations@[j]));
    }
    assert(h.destinations@ =~= ds);
}

proof fn lemma_dests_result_backends(ds: Seq<Destination>, n: nat)
    requires
        n <= ds.len(),
        forall|j: int| 0 <= j < ds.len() ==> #[trigger] ds[j] is Address,
    ensures
        dests_result(ds, n) == ds.subrange(0, n as int).map_values(|d: Destination| d->Address_0),
    decreases n,
{
    if n > 0 {
        lemma_dests_result_backends(ds, (n - 1) as nat);
        assert(dest_result(ds[n - 1]) == seq![ds[n - 1]->Address_0]);
        assert(dests_result(ds, n) =~= ds.subrange(0, n as int).map_values(|d: Destination| d->Address_0));
    }
}

/// The position that a round robin among `n` children, whose cursor was `c`,
/// selects after `steps` resolutions.
pub open spec fn position_after(c: int, n: nat, steps: nat) -> int {
    (c % n as int + steps as int) % n as int
}

/// Each resolution of a duplicate moves a round robin among its children on
/// by one: after `states.len() - 1` resolutions, by as many.
pub proof fn lemma_nested_round_robin_advances(states: Seq<LoadBalanceGroup>, k: int)
    requires
        states.len() > 0,
        states[0].strategy is Duplicate,
        0 <= k < states[0].destinations@.len(),
        states[0].destinations@[k] matches Destination::Group(inner) && inner.strategy is RoundRobin
            && 0 < inner.destinations@.len() <= usize::MAX,
        forall|i: int| 0 <= i < states.len() - 1 ==> group_advanced(#[trigger] states[i], states[i + 1]),
    ensures
        ({
            let inner0 = states[0].destinations@[k]->Group_0;
            let n = inner0.destinations@.len();
            let c0 = inner0.strategy->RoundRobin_0.next_index as int;
            let last = states.last();
            &&& last.strategy is Duplicate
            &&& last.destinations@.len() == states[0].destinations@.len()
            &&& last.destinations@[k] matches Destination::Group(inner)
            &&& inner.destinations@.len() == n
            &&& inner.strategy matches LoadBalancingStrategy::RoundRobin(rr)
            &&& rr_index(rr, n) == position_after(c0, n, (states.len() - 1) as nat)
        }),
    decreases states.len(),
{
    let inner0 = states[0].destinations@[k]->Group_0;
    let n = inner0.destinations@.len();
    let c0 = inner0.strategy->RoundRobin_0.next_index as int;
    if states.len() > 1 {
        let prev = states.drop_last();
        assert forall|i: int| 0 <= i < prev.len() - 1 implies group_advanced(#[trigger] prev[i], prev[i + 1]) by {
            assert(group_advanced(states[i], states[i + 1]));
        }
        lemma_nested_round_robin_advances(prev, k);
        let g = prev.last();
        let h = states.last();
        assert(group_advanced(states[states.len() - 2], states[states.len() - 1]));
        assert(g == states[states.len() - 2]);
        let ds = g.destinations@;
        lemma_dests_advanced_all(ds, h.destinations@, ds.len());
        assert(dest_advanced(ds[k], h.destinations@[k]));
        let rr = ds[k]->Group_0.strategy->RoundRobin_0;
        let steps = (prev.len() - 1) as nat;
        let idx = rr_index(rr, n);
        let a = c0 % n as int + steps as int;
        assert(idx == a % n as int);
        assert(0 <= idx < n);
        let next = rr_next(rr, n) as int;
        assert(next == if idx + 1 >= n { 0 } else { idx + 1 });
        assert(next % n as int == (idx + 1) % n as int) by (nonlinear_arith)
            requires
                0 <= idx < n,
                next == if idx + 1 >= n { 0 } else { idx + 1 },
        ;
        lemma_fundamental_div_mod(a, n as int);
        lemma_mod_multiples_vanish(a / n as int, idx + 1, n as int);
        assert(a + 1 == n as int * (a / n as int) + (idx + 1));
        assert(next % n as int == position_after(c0, n, (steps + 1) as nat));
    } else {
        assert((c0 % n as int + 0) % n as int == c0 % n as int) by (nonlinear_arith)
            requires
                n > 0,
        ;
    }
}

// ---- executable ---------------------------------------------------------
impl Duplicate {
    /// Resolves every one of `destinations`, in order, and returns all their
    /// backends one after another.
    pub fn next_destinations(&self, destinations: &mut Vec<Destination>) -> (r: Vec<BackendAddress>)
        requires
            dests_error(old(destinations)@, old(destinations)@.len()) is None,
        ensures
            r@ == dests_result(old(destinations)@, old(destinations)@.len()),
            final(destinations)@.len() == old(destinations)@.len(),
            dests_advanced(old(destinations)@, final(destinations)@, old(destinations)@.len()),
            dests_error(final(destinations)@, final(destinations)@.len()) is None,
        decreases *old(destinations),
    {
        let ghost ds0 = destinations@;
        let n = destinations.len();
        let mut ret: Vec<BackendAddress> = Vec::new();
        proof {
            lemma_dests_error_none(ds0, n as nat);
        }
        let mut i: usize = 0;
        while i < n
            invariant
                ds0 == old(destinations)@,
                n == ds0.len(),
                destinations@.len() == n,
                i <= n,
                forall|j: int| 0 <= j < n ==> #[trigger] dest_error(ds0[j]) is None,
                forall|j: int| i <= j < n ==> #[trigger] destinations@[j] == ds0[j],
                forall|j: int| 0 <= j < i ==> #[trigger] dest_advanced(ds0[j], destinations@[j]),
                forall|j: int| 0 <= j < i ==> #[trigger] dest_error(destinations@[j]) is None,
                ret@ == dests_result(ds0, i as nat),
            decreases n - i,
        {
            let ghost before = destinations@;
            let ghost prefix = ret@;
            let child = destinations.remove(i);
            assert(child == ds0[i as int]);
            let new_child = match child {
                Destination::Address(a) => {
                    ret.push(a);
                    Destination::Address(a)
                },
                Destination::Group(mut g) => {
                    assert(decreases_to!(ds0 => ds0[i as int]));
                    assert(dest_error(ds0[i as int]) is None);
                    let mut sub = g.get_balance_result();
                    ret.append(&mut sub);
                    Destination::Group(g)
                },
            };
            assert(ret@ =~= prefix + dest_result(ds0[i as int]));
            assert(dest_advanced(ds0[i as int], new_child));
            assert(dest_error(new_child) is None);
            destinations.insert(i, new_child);
            assert(destinations@ == before.update(i as int, new_child));
            i = i + 1;
        }
        proof {
            lemma_dests_advanced_all(ds0, destinations@, n as nat);
            lemma_dests_error_none(destinations@, n as nat);
        }
        ret
    }
}

impl RoundRobin {
    /// A round robin that selects the first child next.
    pub fn new() -> (r: RoundRobin)
        ensures
            r.next_index == 0,
    {
        RoundRobin { next_index: 0 }
    }

    /// Resolves the child at the cursor alone, and moves the cursor on by one,
    /// back to the first child after the last.
    pub fn next_destinations(&mut self, destinations: &mut Vec<Destination>) -> (r: Vec<BackendAddress>)
        requires
            old(destinations)@.len() > 0,
            dests_error(old(destinations)@, old(destinations)@.len()) is None,
        ensures
            ({
                let ds = old(destinations)@;
                let i = rr_index(*old(self), ds.len());
                &&& r@ == dest_result(ds[i])
                &&& final(self).next_index == rr_next(*old(self), ds.len())
                &&& final(destinations)@.len() == ds.len()
                &&& dest_advanced(ds[i], final(destinations)@[i])
                &&& forall|j: int| 0 <= j < ds.len() && j != i ==> final(destinations)@[j] == ds[j]
            }),
            dests_error(final(destinations)@, final(destinations)@.len()) is None,
        decreases *old(destinations),
    {
        let ghost ds0 = destinations@;
        let n = destinations.len();
        let i = self.next_index % n;
        proof {
            lemma_dests_error_none(ds0, n as nat);
        }
        let child = destinations.remove(i);
        assert(child == ds0[i as int]);
        let (ret, new_child) = match child {
            Destination::Address(a) => {
                let r = vec![a];
                assert(r@ =~= seq![a]);
                (r, Destination::Address(a))
            },
            Destination::Group(mut g) => {
                assert(decreases_to!(ds0 => ds0[i as int]));
                assert(dest_error(ds0[i as int]) is None);
                let sub = g.get_balance_result();
                (sub, Destination::Group(g))
            },
        };
        destinations.insert(i, new_child);
        assert(destinations@ == ds0.update(i as int, new_child));
        self.next_index = if i + 1 >= n {
            0
        } else {
            i + 1
        };
        assert(dest_error(new_child) is None);
        proof {
            lemma_dests_error_none(destinations@, n as nat);
        }
        ret
    }
}

impl LoadBalanceGroup {
    /// Resolves the group to the backends that a datagram goes to, moving on
    /// the cursor of every round robin that the resolution passes through.
    pub fn get_balance_result(&mut self) -> (r: Vec<BackendAddress>)
        requires
            group_wf(*old(self)),
        ensures
            r@ == group_result(*old(self)),
            group_advanced(*old(self), *final(self)),
            group_wf(*final(self)),
        decreases *old(self),
    {
        match self.strategy {
            LoadBalancingStrategy::Duplicate(d) => d.next_destinations(&mut self.destinations),
            LoadBalancingStrategy::RoundRobin(rr) => {
                let mut rr = rr;
                let r = rr.next_destinations(&mut self.destinations);
                self.strategy = LoadBalancingStrategy::RoundRobin(rr);
                r
            },
            LoadBalancingStrategy::WeightedRoundRobin => {
                proof {
                    assert(false);
                }
                Vec::new()
            },
        }
    }

    /// Checks, before any resolution, that every group of the tree has
    /// children and a strategy that can be resolved.
    pub fn validate(&self) -> (r: Result<(), ConfigError>)
        ensures
            r == match group_error(*self) {
                None => Ok::<(), ConfigError>(()),
                Some(e) => Err(e),
            },
        decreases *self,
    {
        let n = self.destinations.len();
        if n == 0 {
            return Err(ConfigError::EmptyGroup);
        }
        match self.strategy {
            LoadBalancingStrategy::WeightedRoundRobin => {
                return Err(ConfigError::UnsupportedStrategy);
            },
            _ => {},
        }
        let ghost ds = self.destinations@;
        let mut i: usize = 0;
        while i < n
            invariant
                ds == self.destinations@,
                !(self.strategy is WeightedRoundRobin),
                n == ds.len(),
                i <= n,
                dests_error(ds, i as nat) is None,
            decreases n - i,
        {
            let d = &self.destinations[i];
            assert(*d == ds[i as int]);
            match d {
                Destination::Address(_) => {},
                Destination::Group(g) => {
                    assert(decreases_to!(ds => ds[i as int]));
                    let r = g.validate();
                    if r.is_err() {
                        assert(dests_error(ds, (i + 1) as nat) == group_error(*g));
                        proof {
                            lemma_dests_error_grows(ds, (i + 1) as nat, n as nat);
                            assert(group_error(*self) == dests_error(ds, n as nat));
                        }
                        return r;
                    }
                },
            }
            assert(dests_error(ds, (i + 1) as nat) == dest_error(ds[i as int]));
            i = i + 1;
        }
        Ok(())
    }
}

} // verus!
