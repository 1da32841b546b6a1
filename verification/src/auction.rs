//! The auction: agents, goods and a tolerance in, an allocation with its
//! prices, its welfare and three verdicts out.

use vstd::prelude::*;
use crate::brace::{
    feasible, found_allocation, individually_rational, pairwise_efficient, BRACEMechanism,
};
use crate::pricing::{agent_views, amounts, equilibrium_prices, good_views, MAX_AGENTS};
use crate::types::{Agent, AgentView, Allocation, AuctionResult, Good, GoodView};

verus! {

/// The sum, over those of the first `n` agents that hold a bundle, of what
/// the bundle is worth to its holder.
pub open spec fn welfare_of(
    agents: Seq<AgentView>,
    allocation: Map<Seq<char>, Seq<GoodView>>,
    n: int,
) -> int
    decreases n,
{
    if n <= 0 {
        0
    } else {
        welfare_of(agents, allocation, n - 1) + if allocation.contains_key(agents[n - 1].id) {
            agents[n - 1].preference(allocation[agents[n - 1].id])
        } else {
            0
        }
    }
}

/// An auction among `agents` over `goods`.
#[derive(Debug)]
pub struct CombinatorialAuction {
    agents: Vec<Agent>,
    goods: Vec<Good>,
    mechanism: BRACEMechanism,
}

/// What a contract sees of an auction.
pub ghost struct AuctionView {
    pub agents: Seq<AgentView>,
    pub goods: Seq<GoodView>,
    pub epsilon: int,
}

impl View for CombinatorialAuction {
    type V = AuctionView;

    closed spec fn view(&self) -> AuctionView {
        AuctionView {
            agents: agent_views(self.agents@),
            goods: good_views(self.goods@),
            epsilon: self.mechanism.epsilon as int,
        }
    }
}

impl CombinatorialAuction {
    /// The auction among `agents` over `goods` with the tolerance `epsilon`.
    pub fn new(agents: Vec<Agent>, goods: Vec<Good>, epsilon: i64) -> (r: Self)
        ensures
            r@ == (AuctionView {
                agents: agent_views(agents@),
                goods: good_views(goods@),
                epsilon: epsilon as int,
            }),
    {
        Self { agents, goods, mechanism: BRACEMechanism::new(epsilon) }
    }

    /// Runs the auction: the allocation that the swap search finds, the
    /// prices that the price search finds for it, its welfare, and whether it
    /// is feasible, individually rational and efficient against swaps of two.
    pub fn run(&self) -> (r: AuctionResult)
        requires
            self@.agents.len() <= MAX_AGENTS,
        ensures
            r.allocation@ == found_allocation(self@.agents),
            amounts(r.prices@) == equilibrium_prices(
                self@.agents,
                self@.goods,
                r.allocation@,
                self@.epsilon,
            ),
            r.total_welfare == welfare_of(self@.agents, r.allocation@, self@.agents.len() as int),
            r.is_feasible == feasible(r.allocation@, self@.goods, self@.epsilon),
            r.is_individually_rational == individually_rational(self@.agents, r.allocation@),
            r.is_ordinal_efficient == pairwise_efficient(self@.agents, r.allocation@),
    {
        let (allocation, prices) = self.mechanism.compute_allocation(
            self.agents.as_slice(),
            self.goods.as_slice(),
        );
        let is_feasible: bool = self.mechanism.verify_feasibility(
            &allocation,
            self.goods.as_slice(),
        );
        let is_individually_rational: bool = self.mechanism.verify_individual_rationality(
            self.agents.as_slice(),
            &allocation,
        );
        let is_ordinal_efficient: bool = self.mechanism.verify_ordinal_efficiency(
            self.agents.as_slice(),
            &allocation,
        );
        let total_welfare: i128 = self.calculate_welfare(&allocation);
        let prices_map = prices.into_map();
        AuctionResult {
            allocation,
            prices: prices_map,
            total_welfare,
            is_feasible,
            is_individually_rational,
            is_ordinal_efficient,
        }
    }

    /// The welfare of `allocation`: the sum, over the agents that hold a
    /// bundle in it, of what the bundle is worth to its holder.
    pub fn calculate_welfare(&self, allocation: &Allocation) -> (r: i128)
        ensures
            r == welfare_of(self@.agents, allocation@, self@.agents.len() as int),
    {
        let ghost views = self@.agents;
        let n: usize = self.agents.len();
        let mut total: i128 = 0;
        let mut k: usize = 0;
        while k < n
            invariant
                n == self.agents.len(),
                k <= n,
                views == self@.agents,
                total == welfare_of(views, allocation@, k as int),
                k * (i64::MIN as int) <= total <= k * (i64::MAX as int),
            decreases n - k,
        {
            let agent = &self.agents[k];
            match allocation.get_bundle(agent.id.as_str()) {
                Some(bundle) => {
                    total = total + (agent.preference(bundle) as i128);
                },
                None => {},
            }
            k = k + 1;
        }
        total
    }

    /// The agents.
    pub fn agents(&self) -> (r: &[Agent])
        ensures
            agent_views(r@) == self@.agents,
            r@.len() == self@.agents.len(),
    {
        self.agents.as_slice()
    }

    /// The goods.
    pub fn goods(&self) -> (r: &[Good])
        ensures
            good_views(r@) == self@.goods,
            r@.len() == self@.goods.len(),
    {
        self.goods.as_slice()
    }
}

} // verus!
