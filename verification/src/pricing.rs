//! Prices, demand, and the ascending search for prices that support an
//! allocation.
//!
//! Values and prices are amounts: whole numbers of a fixed small unit, so
//! that sums and comparisons are exact.

use vstd::prelude::*;
use crate::table::{lemma_take_step, Table};
use crate::types::{
    has_id, id_set, lemma_take_has_id, lemma_take_step_has_id, well_ordered, Agent, AgentView,
    Allocation, Bundle, Good, GoodView,
};

verus! {

/// The number of units that make the amount 1.
pub const UNITS_PER_ONE: i64 = 1_000_000_000_000;

/// By how much one agent raises the price of a good in one round: a tenth.
pub const PRICE_STEP: i64 = 100_000_000_000;

/// Bundles whose net utility is less than this below the best are demanded
/// with it: a billionth.
pub const DEMAND_TOLERANCE: i64 = 1_000;

/// The number of rounds after which the price search stops.
pub const MAX_PRICE_ROUNDS: usize = 1000;

/// The largest number of agents for which no price can outgrow an amount:
/// each of them can raise a price by one step in each round.
pub const MAX_AGENTS: usize = 92_233;

/// A table of amounts as a map to integers.
pub open spec fn amounts(table: Map<Seq<char>, i64>) -> Map<Seq<char>, int> {
    Map::new(|id: Seq<char>| table.contains_key(id), |id: Seq<char>| table[id] as int)
}

/// The price of the good `id`: 0 where none is set.
pub open spec fn price_of(prices: Map<Seq<char>, int>, id: Seq<char>) -> int {
    if prices.contains_key(id) {
        prices[id]
    } else {
        0
    }
}

/// The sum of the prices of `goods`.
pub open spec fn bundle_price_of(prices: Map<Seq<char>, int>, goods: Seq<GoodView>) -> int
    decreases goods.len(),
{
    if goods.len() == 0 {
        0
    } else {
        bundle_price_of(prices, goods.drop_last()) + price_of(prices, goods.last().id)
    }
}

/// What `bundle` is worth to the agent beyond its price.
pub open spec fn net_utility_of(
    prices: Map<Seq<char>, int>,
    agent: AgentView,
    bundle: Seq<GoodView>,
) -> int {
    agent.preference(bundle) - bundle_price_of(prices, bundle)
}

/// The largest net utility among the first `n` registered bundles of the
/// agent, for `n` at least 1.
pub open spec fn best_utility(prices: Map<Seq<char>, int>, agent: AgentView, n: int) -> int
    decreases n,
{
    if n <= 1 {
        net_utility_of(prices, agent, agent.bundles[0])
    } else {
        let before = best_utility(prices, agent, n - 1);
        let here = net_utility_of(prices, agent, agent.bundles[n - 1]);
        if here > before {
            here
        } else {
            before
        }
    }
}

/// Whether `bundle` is as good to the agent as the best of its registered
/// bundles, up to the tolerance.
pub open spec fn in_demand(
    prices: Map<Seq<char>, int>,
    agent: AgentView,
    bundle: Seq<GoodView>,
) -> bool {
    best_utility(prices, agent, agent.bundles.len() as int) - net_utility_of(prices, agent, bundle)
        < DEMAND_TOLERANCE
}

/// The test that `demand_of` applies to each registered bundle.
pub open spec fn demand_test(prices: Map<Seq<char>, int>, agent: AgentView) -> spec_fn(
    Seq<GoodView>,
) -> bool {
    |bundle: Seq<GoodView>| in_demand(prices, agent, bundle)
}

/// The demand set: the registered bundles whose net utility is within the
/// tolerance of the best, in the order of registration.
pub open spec fn demand_of(prices: Map<Seq<char>, int>, agent: AgentView) -> Seq<Seq<GoodView>> {
    agent.bundles.filter(demand_test(prices, agent))
}

/// Whether every price is one that an amount can hold.
pub open spec fn prices_fit(prices: Map<Seq<char>, int>) -> bool {
    forall|id: Seq<char>|
        prices.contains_key(id) ==> i64::MIN <= #[trigger] prices[id] <= i64::MAX
}

/// A bundle costs at most as much as its goods could at the largest price.
pub proof fn lemma_bundle_price_bounds(prices: Map<Seq<char>, int>, goods: Seq<GoodView>)
    requires
        prices_fit(prices),
    ensures
        goods.len() * (i64::MIN as int) <= bundle_price_of(prices, goods) <= goods.len() * (
        i64::MAX as int),
    decreases goods.len(),
{
    if goods.len() > 0 {
        lemma_bundle_price_bounds(prices, goods.drop_last());
    }
}

/// The best net utility is that of a registered bundle, and none has more.
pub proof fn lemma_best_utility(prices: Map<Seq<char>, int>, agent: AgentView, n: int)
    requires
        1 <= n <= agent.bundles.len(),
    ensures
        forall|i: int|
            0 <= i < n ==> net_utility_of(prices, agent, #[trigger] agent.bundles[i])
                <= best_utility(prices, agent, n),
        exists|i: int|
            0 <= i < n && net_utility_of(prices, agent, #[trigger] agent.bundles[i])
                == best_utility(prices, agent, n),
    decreases n,
{
    if n > 1 {
        lemma_best_utility(prices, agent, n - 1);
    } else {
        assert(net_utility_of(prices, agent, agent.bundles[0]) == best_utility(prices, agent, n));
    }
}

/// What contracts see of a sequence of agents.
pub open spec fn agent_views(agents: Seq<Agent>) -> Seq<AgentView> {
    agents.map_values(|a: Agent| a@)
}

/// What contracts see of a sequence of goods.
pub open spec fn good_views(goods: Seq<Good>) -> Seq<GoodView> {
    goods.map_values(|g: Good| g@)
}

/// Whether the demand set of the agent holds a bundle with the identifiers
/// of `bundle`.
pub open spec fn demands(
    prices: Map<Seq<char>, int>,
    agent: AgentView,
    bundle: Seq<GoodView>,
) -> bool {
    exists|i: int|
        0 <= i < agent.bundles.len() && in_demand(prices, agent, #[trigger] agent.bundles[i])
            && id_set(agent.bundles[i]) == id_set(bundle)
}

/// Whether the agent holds a bundle that it does not demand at these prices.
pub open spec fn misfit(
    prices: Map<Seq<char>, int>,
    agent: AgentView,
    allocation: Map<Seq<char>, Seq<GoodView>>,
) -> bool {
    allocation.contains_key(agent.id) && !demands(prices, agent, allocation[agent.id])
}

/// How many of the first `n` agents raise the price of the good `id` in a
/// round: those that hold it in a bundle that they do not demand.
pub open spec fn raise_count(
    prices: Map<Seq<char>, int>,
    agents: Seq<AgentView>,
    allocation: Map<Seq<char>, Seq<GoodView>>,
    id: Seq<char>,
    n: int,
) -> int
    decreases n,
{
    if n <= 0 {
        0
    } else {
        raise_count(prices, agents, allocation, id, n - 1) + if misfit(
            prices,
            agents[n - 1],
            allocation,
        ) && has_id(allocation[agents[n - 1].id], id) {
            1int
        } else {
            0int
        }
    }
}

/// By how much the price of the good `id` rises in a round.
pub open spec fn round_delta(
    prices: Map<Seq<char>, int>,
    agents: Seq<AgentView>,
    allocation: Map<Seq<char>, Seq<GoodView>>,
    id: Seq<char>,
) -> int {
    PRICE_STEP * raise_count(prices, agents, allocation, id, agents.len() as int)
}

/// Whether the search stops at these prices: the largest rise of a round,
/// or 0 where nothing rises, is below `epsilon`.
pub open spec fn settled(
    prices: Map<Seq<char>, int>,
    agents: Seq<AgentView>,
    allocation: Map<Seq<char>, Seq<GoodView>>,
    epsilon: int,
) -> bool {
    0 < epsilon && forall|id: Seq<char>|
        #[trigger] round_delta(prices, agents, allocation, id) < epsilon
}

/// The prices after one round: every rise of the round applied at once.
pub open spec fn raised(
    prices: Map<Seq<char>, int>,
    agents: Seq<AgentView>,
    allocation: Map<Seq<char>, Seq<GoodView>>,
) -> Map<Seq<char>, int> {
    Map::new(
        |id: Seq<char>| prices.contains_key(id) || round_delta(prices, agents, allocation, id) > 0,
        |id: Seq<char>| price_of(prices, id) + round_delta(prices, agents, allocation, id),
    )
}

/// The price 0 for each of `goods`.
pub open spec fn zero_prices(goods: Seq<GoodView>) -> Map<Seq<char>, int> {
    Map::new(|id: Seq<char>| has_id(goods, id), |id: Seq<char>| 0int)
}

/// The prices that the search reaches from `prices` in at most `rounds`
/// rounds: it stops where the prices are settled, and never lowers one.
pub open spec fn prices_after(
    prices: Map<Seq<char>, int>,
    agents: Seq<AgentView>,
    allocation: Map<Seq<char>, Seq<GoodView>>,
    epsilon: int,
    rounds: nat,
) -> Map<Seq<char>, int>
    decreases rounds,
{
    if rounds == 0 || settled(prices, agents, allocation, epsilon) {
        prices
    } else {
        prices_after(
            raised(prices, agents, allocation),
            agents,
            allocation,
            epsilon,
            (rounds - 1) as nat,
        )
    }
}

/// The prices that support `allocation`, as the search finds them from the
/// price 0 for each of `goods`.
pub open spec fn equilibrium_prices(
    agents: Seq<AgentView>,
    goods: Seq<GoodView>,
    allocation: Map<Seq<char>, Seq<GoodView>>,
    epsilon: int,
) -> Map<Seq<char>, int> {
    prices_after(zero_prices(goods), agents, allocation, epsilon, MAX_PRICE_ROUNDS as nat)
}

/// Of `n` agents at most `n` raise a price.
pub proof fn lemma_raise_count_bounds(
    prices: Map<Seq<char>, int>,
    agents: Seq<AgentView>,
    allocation: Map<Seq<char>, Seq<GoodView>>,
    id: Seq<char>,
    n: int,
)
    requires
        0 <= n,
    ensures
        0 <= raise_count(prices, agents, allocation, id, n) <= n,
    decreases n,
{
    if n > 0 {
        lemma_raise_count_bounds(prices, agents, allocation, id, n - 1);
    }
}

/// Where no agent holds a bundle outside its demand set at the starting
/// prices and `epsilon` is positive, the search stops before its first round
/// and leaves every price as it was.
pub proof fn lemma_settled_at_start(
    prices: Map<Seq<char>, int>,
    agents: Seq<AgentView>,
    allocation: Map<Seq<char>, Seq<GoodView>>,
    epsilon: int,
    rounds: nat,
)
    requires
        0 < epsilon,
        forall|k: int| 0 <= k < agents.len() ==> !misfit(prices, #[trigger] agents[k], allocation),
    ensures
        settled(prices, agents, allocation, epsilon),
        prices_after(prices, agents, allocation, epsilon, rounds) == prices,
{
    assert forall|id: Seq<char>| #[trigger]
        round_delta(prices, agents, allocation, id) < epsilon by {
        lemma_no_misfit_no_raise(prices, agents, allocation, id, agents.len() as int);
    }
}

/// Agents that all demand what they hold raise no price.
pub proof fn lemma_no_misfit_no_raise(
    prices: Map<Seq<char>, int>,
    agents: Seq<AgentView>,
    allocation: Map<Seq<char>, Seq<GoodView>>,
    id: Seq<char>,
    n: int,
)
    requires
        n <= agents.len(),
        forall|k: int| 0 <= k < agents.len() ==> !misfit(prices, #[trigger] agents[k], allocation),
    ensures
        raise_count(prices, agents, allocation, id, n) == 0,
    decreases n,
{
    if n > 0 {
        lemma_no_misfit_no_raise(prices, agents, allocation, id, n - 1);
    }
}

/// The search never lowers a price, and drops none.
pub proof fn lemma_prices_never_fall(
    prices: Map<Seq<char>, int>,
    agents: Seq<AgentView>,
    allocation: Map<Seq<char>, Seq<GoodView>>,
    epsilon: int,
    rounds: nat,
    id: Seq<char>,
)
    ensures
        price_of(prices_after(prices, agents, allocation, epsilon, rounds), id) >= price_of(
            prices,
            id,
        ),
        prices.contains_key(id) ==> prices_after(
            prices,
            agents,
            allocation,
            epsilon,
            rounds,
        ).contains_key(id),
    decreases rounds,
{
    if rounds > 0 && !settled(prices, agents, allocation, epsilon) {
        let next = raised(prices, agents, allocation);
        lemma_raise_count_bounds(prices, agents, allocation, id, agents.len() as int);
        lemma_prices_never_fall(next, agents, allocation, epsilon, (rounds - 1) as nat, id);
    }
}

/// Every bundle of the demand set is a registered one, and an agent that
/// has registered none demands none.
pub proof fn lemma_demand_registered(prices: Map<Seq<char>, int>, agent: AgentView)
    ensures
        forall|i: int|
            0 <= i < demand_of(prices, agent).len() ==> agent.bundles.contains(
                #[trigger] demand_of(prices, agent)[i],
            ) && in_demand(prices, agent, demand_of(prices, agent)[i]),
        forall|i: int|
            0 <= i < agent.bundles.len() && in_demand(prices, agent, #[trigger] agent.bundles[i])
                ==> demand_of(prices, agent).contains(agent.bundles[i]),
        agent.bundles.len() == 0 ==> demand_of(prices, agent).len() == 0,
{
    let test = demand_test(prices, agent);
    let demand = demand_of(prices, agent);
    agent.bundles.lemma_filter_len(test);
    assert forall|i: int| 0 <= i < demand.len() implies agent.bundles.contains(
        #[trigger] demand[i],
    ) && in_demand(prices, agent, demand[i]) by {
        agent.bundles.lemma_filter_pred(test, i);
        agent.bundles.lemma_filter_contains_rev(test, demand[i]);
    }
}

/// A price for each good that has one; every other good costs nothing.
#[derive(Debug)]
pub struct PriceVector {
    prices: Table<String, i64>,
}

impl View for PriceVector {
    type V = Map<Seq<char>, int>;

    closed spec fn view(&self) -> Map<Seq<char>, int> {
        amounts(self.prices@)
    }
}

impl PriceVector {
    /// No good has a price.
    pub fn new() -> (r: Self)
        ensures
            r@ == Map::<Seq<char>, int>::empty(),
    {
        PriceVector { prices: Table::new() }
    }

    /// The prices of `prices`.
    pub fn from_map(prices: Table<String, i64>) -> (r: Self)
        ensures
            r@ == amounts(prices@),
    {
        PriceVector { prices }
    }

    /// The prices, as the table that holds them.
    pub fn into_map(self) -> (r: Table<String, i64>)
        ensures
            amounts(r@) == self@,
    {
        self.prices
    }

    /// Sets the price of the good `good_id`.
    pub fn set_price(&mut self, good_id: String, price: i64)
        ensures
            final(self)@ == old(self)@.insert(good_id@, price as int),
    {
        self.prices.insert(good_id, price);
    }

    /// The price of the good `good_id`: 0 where none is set.
    pub fn get_price(&self, good_id: &str) -> (r: i64)
        ensures
            r == price_of(self@, good_id@),
            prices_fit(self@),
    {
        let key: String = good_id.to_owned();
        match self.prices.get(&key) {
            Some(p) => *p,
            None => 0,
        }
    }

    /// The price of a bundle: the sum of the prices of its goods.
    pub fn bundle_price(&self, bundle: &Bundle) -> (r: i128)
        ensures
            r == bundle_price_of(self@, bundle@),
            prices_fit(self@),
            bundle@.len() <= usize::MAX,
    {
        let goods = bundle.goods();
        let n: usize = goods.len();
        let mut total: i128 = 0;
        let mut i: usize = 0;
        while i < n
            invariant
                n == goods.len(),
                i <= n,
                goods@.map_values(|g: Good| g@) == bundle@,
                prices_fit(self@),
                total == bundle_price_of(self@, bundle@.take(i as int)),
                i * (i64::MIN as int) <= total <= i * (i64::MAX as int),
            decreases n - i,
        {
            let p: i64 = self.get_price(goods[i].id.as_str());
            proof {
                assert(bundle@.take(i as int + 1).drop_last() =~= bundle@.take(i as int));
            }
            total = total + (p as i128);
            i = i + 1;
        }
        assert(bundle@.take(n as int) =~= bundle@);
        total
    }

    /// What `bundle` is worth to `agent` beyond its price.
    pub fn net_utility(&self, agent: &Agent, bundle: &Bundle) -> (r: i128)
        ensures
            r == net_utility_of(self@, agent@, bundle@),
    {
        let value: i64 = agent.preference(bundle);
        let price: i128 = self.bundle_price(bundle);
        proof {
            lemma_bundle_price_bounds(self@, bundle@);
        }
        (value as i128) - price
    }

    /// The demand set of `agent`: those of its registered bundles whose net
    /// utility is within the tolerance of the best, in the order of
    /// registration. Ties are all in it.
    pub fn demand_set(&self, agent: &Agent) -> (r: Vec<Bundle>)
        ensures
            r@.map_values(|b: Bundle| b@) == demand_of(self@, agent@),
            r@.len() == demand_of(self@, agent@).len(),
            forall|i: int| 0 <= i < r.len() ==> agent@.bundles.contains(#[trigger] r[i]@),
            agent@.bundles.len() == 0 ==> r.len() == 0,
    {
        let bundles = agent.preference_bundles();
        let n: usize = bundles.len();
        let mut demand: Vec<Bundle> = Vec::new();
        let ghost listed = agent@.bundles;
        let ghost test = demand_test(self@, agent@);
        if n == 0 {
            proof {
                reveal(Seq::filter);
            }
            return demand;
        }
        let mut best: i128 = self.net_utility(agent, &bundles[0]);
        let mut i: usize = 1;
        while i < n
            invariant
                n == bundles.len(),
                1 <= i <= n,
                listed == agent@.bundles,
                bundles@.map_values(|b: Bundle| b@) == listed,
                best == best_utility(self@, agent@, i as int),
            decreases n - i,
        {
            let utility: i128 = self.net_utility(agent, &bundles[i]);
            if utility > best {
                best = utility;
            }
            i = i + 1;
        }
        proof {
            lemma_best_utility(self@, agent@, n as int);
            reveal(Seq::filter);
        }
        let mut j: usize = 0;
        while j < n
            invariant
                n == bundles.len(),
                j <= n,
                listed == agent@.bundles,
                test == demand_test(self@, agent@),
                bundles@.map_values(|b: Bundle| b@) == listed,
                best == best_utility(self@, agent@, n as int),
                forall|k: int|
                    0 <= k < n ==> net_utility_of(self@, agent@, #[trigger] listed[k]) <= best,
                demand@.map_values(|b: Bundle| b@) == listed.take(j as int).filter(test),
                forall|k: int| 0 <= k < demand.len() ==> listed.contains(#[trigger] demand[k]@),
            decreases n - j,
        {
            assert(bundles[j as int]@ == listed[j as int]);
            let utility: i128 = self.net_utility(agent, &bundles[j]);
            let close: bool = if utility >= 0 {
                best - utility < DEMAND_TOLERANCE as i128
            } else {
                best < utility + DEMAND_TOLERANCE as i128
            };
            proof {
                assert(listed.take(j as int + 1) =~= listed.take(j as int).push(listed[j as int]));
                listed.take(j as int).lemma_filter_push(listed[j as int], test);
            }
            if close {
                demand.push(bundles[j].clone());
            }
            j = j + 1;
        }
        assert(listed.take(n as int) =~= listed);
        demand
    }

    /// The prices, good by good.
    pub fn all_prices(&self) -> (r: &Table<String, i64>)
        ensures
            amounts(r@) == self@,
    {
        &self.prices
    }
}

impl Clone for PriceVector {
    fn clone(&self) -> (r: Self)
        ensures
            r@ == self@,
    {
        PriceVector { prices: self.prices.clone() }
    }
}

impl Default for PriceVector {
    fn default() -> (r: Self)
        ensures
            r@ == Map::<Seq<char>, int>::empty(),
    {
        PriceVector::new()
    }
}

/// Whether the demand set of `agent` at `prices` holds a bundle with the
/// goods of `bundle`.
pub fn holds_demanded(prices: &PriceVector, agent: &Agent, bundle: &Bundle) -> (r: bool)
    ensures
        r == demands(prices@, agent@, bundle@),
{
    let demand = prices.demand_set(agent);
    let ghost listed = agent@.bundles;
    let ghost test = demand_test(prices@, agent@);
    let ghost wanted = demand@.map_values(|b: Bundle| b@);
    let n: usize = demand.len();
    let mut i: usize = 0;
    while i < n
        invariant
            n == demand.len(),
            i <= n,
            wanted == demand@.map_values(|b: Bundle| b@),
            wanted == listed.filter(test),
            listed == agent@.bundles,
            test == demand_test(prices@, agent@),
            forall|k: int| 0 <= k < i ==> id_set(#[trigger] wanted[k]) != id_set(bundle@),
        decreases n - i,
    {
        if demand[i].same_goods(bundle) {
            proof {
                listed.lemma_filter_pred(test, i as int);
                listed.lemma_filter_contains_rev(test, wanted[i as int]);
            }
            return true;
        }
        i = i + 1;
    }
    proof {
        if demands(prices@, agent@, bundle@) {
            let w = choose|w: int|
                0 <= w < listed.len() && in_demand(prices@, agent@, #[trigger] listed[w])
                    && id_set(listed[w]) == id_set(bundle@);
            listed.lemma_filter_contains(test, w);
        }
    }
    false
}

/// The rises of one round at `prices`: for each good that any agent holds
/// in a bundle it does not demand, one step for each such agent.
pub fn round_deltas(prices: &PriceVector, agents: &[Agent], allocation: &Allocation) -> (deltas:
    PriceVector)
    requires
        agents.len() <= MAX_AGENTS,
    ensures
        forall|id: Seq<char>|
            price_of(deltas@, id) == #[trigger] round_delta(
                prices@,
                agent_views(agents@),
                allocation@,
                id,
            ),
        forall|id: Seq<char>|
            deltas@.contains_key(id) <==> #[trigger] round_delta(
                prices@,
                agent_views(agents@),
                allocation@,
                id,
            ) > 0,
{
    let ghost views = agent_views(agents@);
    let mut deltas = PriceVector::new();
    let n: usize = agents.len();
    let mut k: usize = 0;
    while k < n
        invariant
            n == agents.len(),
            n <= MAX_AGENTS,
            k <= n,
            views == agent_views(agents@),
            forall|id: Seq<char>|
                price_of(deltas@, id) == PRICE_STEP * #[trigger] raise_count(
                    prices@,
                    views,
                    allocation@,
                    id,
                    k as int,
                ),
            forall|id: Seq<char>|
                deltas@.contains_key(id) <==> #[trigger] raise_count(
                    prices@,
                    views,
                    allocation@,
                    id,
                    k as int,
                ) > 0,
        decreases n - k,
    {
        let agent = &agents[k];
        let mut raises: bool = false;
        match allocation.get_bundle(agent.id.as_str()) {
            Some(held) => {
                if !holds_demanded(prices, agent, held) {
                    raises = true;
                    let goods = held.goods();
                    let m: usize = goods.len();
                    let mut j: usize = 0;
                    while j < m
                        invariant
                            m == goods.len(),
                            j <= m,
                            k < n,
                            n <= MAX_AGENTS,
                            goods@.map_values(|g: Good| g@) == held@,
                            well_ordered(held@),
                            forall|id: Seq<char>|
                                price_of(deltas@, id) == PRICE_STEP * #[trigger] raise_count(
                                    prices@,
                                    views,
                                    allocation@,
                                    id,
                                    k as int,
                                ) + if has_id(held@.take(j as int), id) {
                                    PRICE_STEP as int
                                } else {
                                    0int
                                },
                            forall|id: Seq<char>|
                                deltas@.contains_key(id) <==> #[trigger] raise_count(
                                    prices@,
                                    views,
                                    allocation@,
                                    id,
                                    k as int,
                                ) > 0 || has_id(held@.take(j as int), id),
                        decreases m - j,
                    {
                        let id: String = goods[j].id.clone();
                        let current: i64 = deltas.get_price(id.as_str());
                        proof {
                            let here = held@[j as int].id;
                            lemma_raise_count_bounds(prices@, views, allocation@, here, k as int);
                            lemma_take_has_id(held@, j as int);
                        }
                        deltas.set_price(id, current + PRICE_STEP);
                        proof {
                            assert forall|q: Seq<char>|
                                has_id(held@.take(j as int + 1), q) <==> (has_id(
                                    held@.take(j as int),
                                    q,
                                ) || q == held@[j as int].id) by {
                                lemma_take_step_has_id(held@, j as int, q);
                            }
                        }
                        j = j + 1;
                    }
                    assert(held@.take(m as int) =~= held@);
                }
            },
            None => {},
        }
        proof {
            assert forall|id: Seq<char>|
                price_of(deltas@, id) == PRICE_STEP * #[trigger] raise_count(
                    prices@,
                    views,
                    allocation@,
                    id,
                    k as int + 1,
                ) && (deltas@.contains_key(id) <==> raise_count(
                    prices@,
                    views,
                    allocation@,
                    id,
                    k as int + 1,
                ) > 0) by {
                lemma_raise_count_bounds(prices@, views, allocation@, id, k as int);
            }
        }
        k = k + 1;
    }
    deltas
}

/// The largest of the rises, or 0 where there is none above it.
pub fn largest_delta(deltas: &PriceVector) -> (r: i64)
    ensures
        0 <= r,
        forall|id: Seq<char>| price_of(deltas@, id) <= r,
        r == 0 || exists|id: Seq<char>| deltas@.contains_key(id) && deltas@[id] == r,
{
    let entries = deltas.all_prices();
    let n: usize = entries.len();
    let mut largest: i64 = 0;
    let mut i: usize = 0;
    while i < n
        invariant
            n == entries.keys().len(),
            entries.wf(),
            i <= n,
            0 <= largest,
            amounts(entries@) == deltas@,
            forall|k: int| 0 <= k < i ==> entries@[#[trigger] entries.keys()[k]] <= largest,
            largest == 0 || exists|id: Seq<char>|
                deltas@.contains_key(id) && deltas@[id] == largest,
        decreases n - i,
    {
        let change: i64 = *entries.value_at(i);
        if change > largest {
            largest = change;
            assert(amounts(entries@)[entries.keys()[i as int]] == change);
        }
        i = i + 1;
    }
    largest
}

/// Adds each rise of `deltas` to the price of its good.
pub fn apply_deltas(prices: &mut PriceVector, deltas: &PriceVector)
    requires
        forall|id: Seq<char>|
            i64::MIN <= price_of(old(prices)@, id) + #[trigger] price_of(deltas@, id) <= i64::MAX,
    ensures
        final(prices)@.dom() == old(prices)@.dom().union(deltas@.dom()),
        forall|id: Seq<char>|
            #[trigger] price_of(final(prices)@, id) == price_of(old(prices)@, id) + price_of(
                deltas@,
                id,
            ),
{
    let entries = deltas.all_prices();
    let n: usize = entries.len();
    let ghost keys = entries.keys();
    let mut i: usize = 0;
    while i < n
        invariant
            n == keys.len(),
            keys == entries.keys(),
            entries.wf(),
            i <= n,
            amounts(entries@) == deltas@,
            forall|id: Seq<char>|
                i64::MIN <= price_of(old(prices)@, id) + #[trigger] price_of(deltas@, id)
                    <= i64::MAX,
            forall|id: Seq<char>|
                prices@.contains_key(id) <==> old(prices)@.contains_key(id) || keys.take(
                    i as int,
                ).contains(id),
            forall|id: Seq<char>|
                #[trigger] price_of(prices@, id) == price_of(old(prices)@, id) + if keys.take(
                    i as int,
                ).contains(id) {
                    price_of(deltas@, id)
                } else {
                    0
                },
        decreases n - i,
    {
        let id: String = entries.key_at(i).clone();
        let change: i64 = *entries.value_at(i);
        let current: i64 = prices.get_price(id.as_str());
        proof {
            let here = keys[i as int];
            assert(change == price_of(deltas@, here));
            assert forall|q: Seq<char>|
                keys.take(i as int + 1).contains(q) <==> (keys.take(i as int).contains(q) || q
                    == here) by {
                lemma_take_step(keys, i as int, q);
            }
        }
        let ghost mid = prices@;
        prices.set_price(id, current + change);
        proof {
            let here = keys[i as int];
            assert forall|q: Seq<char>|
                #[trigger] price_of(prices@, q) == price_of(old(prices)@, q) + if keys.take(
                    i as int + 1,
                ).contains(q) {
                    price_of(deltas@, q)
                } else {
                    0
                } by {
                if q != here {
                    assert(price_of(prices@, q) == price_of(mid, q));
                }
            }
        }
        i = i + 1;
    }
    assert(keys.take(n as int) =~= keys);
}

/// Searches for prices that support `allocation`: from the price 0 for each
/// of `goods`, in rounds. In a round every agent that holds a bundle outside
/// its demand set raises the price of each good of that bundle by one step;
/// the rises of a round are applied together. The search stops before a
/// round whose largest rise is below `epsilon`, and after the last round.
pub fn compute_equilibrium_prices(
    agents: &[Agent],
    goods: &[Good],
    allocation: &Allocation,
    epsilon: i64,
) -> (r: PriceVector)
    requires
        agents.len() <= MAX_AGENTS,
    ensures
        r@ == equilibrium_prices(
            agent_views(agents@),
            good_views(goods@),
            allocation@,
            epsilon as int,
        ),
{
    let ghost views = agent_views(agents@);
    let ghost listed = good_views(goods@);
    let mut prices = PriceVector::new();
    let count: usize = goods.len();
    let mut g: usize = 0;
    while g < count
        invariant
            count == goods.len(),
            g <= count,
            listed == good_views(goods@),
            prices@ == zero_prices(listed.take(g as int)),
        decreases count - g,
    {
        prices.set_price(goods[g].id.clone(), 0);
        proof {
            assert forall|q: Seq<char>|
                prices@.contains_key(q) <==> zero_prices(listed.take(g as int + 1)).contains_key(
                    q,
                ) by {
                lemma_take_step_has_id(listed, g as int, q);
            }
        }
        g = g + 1;
    }
    assert(listed.take(count as int) =~= listed);
    let cap: i64 = (agents.len() as i64) * PRICE_STEP;
    let mut round: usize = 0;
    while round < MAX_PRICE_ROUNDS
        invariant
            round <= MAX_PRICE_ROUNDS,
            agents.len() <= MAX_AGENTS,
            views == agent_views(agents@),
            listed == good_views(goods@),
            cap == agents.len() * PRICE_STEP,
            forall|id: Seq<char>| 0 <= #[trigger] price_of(prices@, id) <= round * cap,
            equilibrium_prices(views, listed, allocation@, epsilon as int) == prices_after(
                prices@,
                views,
                allocation@,
                epsilon as int,
                (MAX_PRICE_ROUNDS - round) as nat,
            ),
        decreases MAX_PRICE_ROUNDS - round,
    {
        let deltas = round_deltas(&prices, agents, allocation);
        let largest: i64 = largest_delta(&deltas);
        proof {
            // The largest rise is that of some good, or 0: the prices are
            // settled exactly where it is below the tolerance.
            assert(settled(prices@, views, allocation@, epsilon as int) == (largest < epsilon)) by {
                if largest >= epsilon && largest > 0 {
                    let w = choose|id: Seq<char>|
                        deltas@.contains_key(id) && deltas@[id] == largest;
                    assert(price_of(deltas@, w) == round_delta(prices@, views, allocation@, w));
                }
            }
        }
        if largest < epsilon {
            return prices;
        }
        proof {
            assert forall|id: Seq<char>|
                0 <= price_of(prices@, id) + #[trigger] price_of(deltas@, id) <= (round + 1)
                    * cap by {
                lemma_raise_count_bounds(prices@, views, allocation@, id, views.len() as int);
                assert(price_of(deltas@, id) == round_delta(prices@, views, allocation@, id));
                assert((round + 1) * cap == round * cap + cap) by (nonlinear_arith);
            }
            assert((round + 1) * cap <= i64::MAX) by (nonlinear_arith)
                requires
                    round + 1 <= 1000,
                    0 <= cap <= 92_233 * 100_000_000_000,
            ;
        }
        let ghost before = prices@;
        apply_deltas(&mut prices, &deltas);
        proof {
            assert(prices@ =~= raised(before, views, allocation@)) by {
                assert forall|id: Seq<char>| prices@.contains_key(id) implies prices@[id]
                    == raised(before, views, allocation@)[id] by {
                    assert(price_of(prices@, id) == price_of(before, id) + price_of(deltas@, id));
                }
            }
        }
        round = round + 1;
    }
    prices
}

} // verus!
