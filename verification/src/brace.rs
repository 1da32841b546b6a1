//! The mechanism: a bounded search for an allocation by swaps of whole
//! bundles, and three checks of an allocation.

use vstd::prelude::*;
use crate::pricing::{
    agent_views, compute_equilibrium_prices, equilibrium_prices, good_views, PriceVector,
    MAX_AGENTS, UNITS_PER_ONE,
};
use crate::table::lemma_count_distinct;
use crate::types::{has_id, Agent, AgentView, Allocation, Bundle, Good, GoodView};

verus! {

/// The number of rounds after which the swap search stops.
pub const MAX_SWAP_ROUNDS: usize = 100;

/// The allocation that gives each of the first `n` agents its endowment. Of
/// two agents with one identifier the later one counts.
pub open spec fn endowments(agents: Seq<AgentView>, n: int) -> Map<Seq<char>, Seq<GoodView>>
    decreases n,
{
    if n <= 0 {
        Map::empty()
    } else {
        endowments(agents, n - 1).insert(agents[n - 1].id, agents[n - 1].endowment)
    }
}

/// Whether both agents hold a bundle and each strictly prefers the other's.
pub open spec fn mutual_gain(
    allocation: Map<Seq<char>, Seq<GoodView>>,
    first: AgentView,
    second: AgentView,
) -> bool {
    &&& allocation.contains_key(first.id)
    &&& allocation.contains_key(second.id)
    &&& first.prefers(allocation[second.id], allocation[first.id])
    &&& second.prefers(allocation[first.id], allocation[second.id])
}

/// The allocation in which the two agents have exchanged their bundles.
pub open spec fn swapped(
    allocation: Map<Seq<char>, Seq<GoodView>>,
    first: AgentView,
    second: AgentView,
) -> Map<Seq<char>, Seq<GoodView>> {
    allocation.insert(first.id, allocation[second.id]).insert(second.id, allocation[first.id])
}

/// Whether `after` is a Pareto improvement on `before`: among the agents
/// that hold a bundle in both, none strictly prefers the old one and at least
/// one strictly prefers the new one.
pub open spec fn pareto_improving(
    agents: Seq<AgentView>,
    before: Map<Seq<char>, Seq<GoodView>>,
    after: Map<Seq<char>, Seq<GoodView>>,
) -> bool {
    &&& forall|k: int|
        0 <= k < agents.len() && before.contains_key((#[trigger] agents[k]).id)
            && after.contains_key(agents[k].id) ==> !agents[k].prefers(
            before[agents[k].id],
            after[agents[k].id],
        )
    &&& exists|k: int|
        0 <= k < agents.len() && before.contains_key((#[trigger] agents[k]).id)
            && after.contains_key(agents[k].id) && agents[k].prefers(
            after[agents[k].id],
            before[agents[k].id],
        )
}

/// Whether the swap between the agents at `i` and `j` is committed: both
/// gain by it, and it is a Pareto improvement.
pub open spec fn trade_commits(
    agents: Seq<AgentView>,
    allocation: Map<Seq<char>, Seq<GoodView>>,
    i: int,
    j: int,
) -> bool {
    mutual_gain(allocation, agents[i], agents[j]) && pareto_improving(
        agents,
        allocation,
        swapped(allocation, agents[i], agents[j]),
    )
}

/// The allocation after the pair `(i, j)` has been tried.
pub open spec fn after_pair(
    agents: Seq<AgentView>,
    allocation: Map<Seq<char>, Seq<GoodView>>,
    i: int,
    j: int,
) -> Map<Seq<char>, Seq<GoodView>> {
    if trade_commits(agents, allocation, i, j) {
        swapped(allocation, agents[i], agents[j])
    } else {
        allocation
    }
}

/// The allocation after the pairs `(i, i + 1)` to `(i, j - 1)` have been
/// tried in this order, each on what the one before it left.
pub open spec fn after_row(
    agents: Seq<AgentView>,
    allocation: Map<Seq<char>, Seq<GoodView>>,
    i: int,
    j: int,
) -> Map<Seq<char>, Seq<GoodView>>
    decreases j - i,
{
    if j <= i + 1 {
        allocation
    } else {
        after_pair(agents, after_row(agents, allocation, i, j - 1), i, j - 1)
    }
}

/// Whether one of the pairs `(i, i + 1)` to `(i, j - 1)` is committed.
pub open spec fn row_commits(
    agents: Seq<AgentView>,
    allocation: Map<Seq<char>, Seq<GoodView>>,
    i: int,
    j: int,
) -> bool
    decreases j - i,
{
    if j <= i + 1 {
        false
    } else {
        row_commits(agents, allocation, i, j - 1) || trade_commits(
            agents,
            after_row(agents, allocation, i, j - 1),
            i,
            j - 1,
        )
    }
}

/// The allocation after the rows of the first `i` agents.
pub open spec fn after_rows(
    agents: Seq<AgentView>,
    allocation: Map<Seq<char>, Seq<GoodView>>,
    i: int,
) -> Map<Seq<char>, Seq<GoodView>>
    decreases i,
{
    if i <= 0 {
        allocation
    } else {
        after_row(agents, after_rows(agents, allocation, i - 1), i - 1, agents.len() as int)
    }
}

/// Whether a swap is committed in the rows of the first `i` agents.
pub open spec fn rows_commit(
    agents: Seq<AgentView>,
    allocation: Map<Seq<char>, Seq<GoodView>>,
    i: int,
) -> bool
    decreases i,
{
    if i <= 0 {
        false
    } else {
        rows_commit(agents, allocation, i - 1) || row_commits(
            agents,
            after_rows(agents, allocation, i - 1),
            i - 1,
            agents.len() as int,
        )
    }
}

/// The allocation after one round: every pair of agents tried once, in the
/// order of the sequence.
pub open spec fn after_round(
    agents: Seq<AgentView>,
    allocation: Map<Seq<char>, Seq<GoodView>>,
) -> Map<Seq<char>, Seq<GoodView>> {
    after_rows(agents, allocation, agents.len() as int)
}

/// Whether a round from `allocation` commits a swap.
pub open spec fn round_commits(
    agents: Seq<AgentView>,
    allocation: Map<Seq<char>, Seq<GoodView>>,
) -> bool {
    rows_commit(agents, allocation, agents.len() as int)
}

/// The allocation that the search reaches from `allocation` in at most
/// `rounds` rounds: it stops after the first round without a swap.
pub open spec fn search_after(
    agents: Seq<AgentView>,
    allocation: Map<Seq<char>, Seq<GoodView>>,
    rounds: nat,
) -> Map<Seq<char>, Seq<GoodView>>
    decreases rounds,
{
    if rounds == 0 {
        allocation
    } else if round_commits(agents, allocation) {
        search_after(agents, after_round(agents, allocation), (rounds - 1) as nat)
    } else {
        after_round(agents, allocation)
    }
}

/// The allocation that the search finds for `agents`, from their endowments.
pub open spec fn found_allocation(agents: Seq<AgentView>) -> Map<Seq<char>, Seq<GoodView>> {
    search_after(agents, endowments(agents, agents.len() as int), MAX_SWAP_ROUNDS as nat)
}

/// The identifiers of the agents.
pub open spec fn agent_ids(agents: Seq<AgentView>) -> Set<Seq<char>> {
    Set::new(
        |id: Seq<char>| exists|k: int| 0 <= k < agents.len() && (#[trigger] agents[k]).id == id,
    )
}

/// Whether no two agents have the same identifier.
pub open spec fn distinct_ids(agents: Seq<AgentView>) -> bool {
    forall|i: int, j: int|
        0 <= i < j < agents.len() ==> (#[trigger] agents[i]).id != (#[trigger] agents[j]).id
}

/// Whether `after` gives a bundle to the same agents as `before`, and to
/// none of `agents` one that it values less than what it held in `before`.
pub open spec fn never_worse(
    agents: Seq<AgentView>,
    before: Map<Seq<char>, Seq<GoodView>>,
    after: Map<Seq<char>, Seq<GoodView>>,
) -> bool {
    &&& after.dom() == before.dom()
    &&& forall|k: int|
        0 <= k < agents.len() && before.contains_key((#[trigger] agents[k]).id)
            ==> agents[k].preference(after[agents[k].id]) >= agents[k].preference(
            before[agents[k].id],
        )
}

/// The test that `holders` applies to each agent that holds a bundle.
pub open spec fn holds_good(allocation: Map<Seq<char>, Seq<GoodView>>, id: Seq<char>) -> spec_fn(
    Seq<char>,
) -> bool {
    |agent: Seq<char>| has_id(allocation[agent], id)
}

/// The number of agents whose bundle holds the good `id`.
pub open spec fn holders(allocation: Map<Seq<char>, Seq<GoodView>>, id: Seq<char>) -> nat {
    allocation.dom().filter(holds_good(allocation, id)).len()
}

/// Approximate feasibility: none of `goods` is held by more agents than 1
/// and the tolerance allow. Goods that nobody holds are not asked after.
pub open spec fn feasible(
    allocation: Map<Seq<char>, Seq<GoodView>>,
    goods: Seq<GoodView>,
    epsilon: int,
) -> bool {
    forall|g: int|
        0 <= g < goods.len() ==> holders(allocation, (#[trigger] goods[g]).id) * UNITS_PER_ONE
            <= UNITS_PER_ONE + epsilon
}

/// Individual rationality: no agent that holds a bundle strictly prefers
/// its endowment to it.
pub open spec fn individually_rational(
    agents: Seq<AgentView>,
    allocation: Map<Seq<char>, Seq<GoodView>>,
) -> bool {
    forall|k: int|
        0 <= k < agents.len() && allocation.contains_key((#[trigger] agents[k]).id)
            ==> !agents[k].prefers(agents[k].endowment, allocation[agents[k].id])
}

/// Efficiency against swaps of two: no two agents would both gain by
/// exchanging their bundles. Exchanges among three or more are not looked at.
pub open spec fn pairwise_efficient(
    agents: Seq<AgentView>,
    allocation: Map<Seq<char>, Seq<GoodView>>,
) -> bool {
    forall|i: int, j: int|
        0 <= i < j < agents.len() ==> !mutual_gain(
            allocation,
            #[trigger] agents[i],
            #[trigger] agents[j],
        )
}

/// The endowment allocation holds a bundle for each agent, and for no one else.
pub proof fn lemma_endowments_agents(agents: Seq<AgentView>, n: int)
    requires
        0 <= n <= agents.len(),
    ensures
        endowments(agents, n).dom() == agent_ids(agents.take(n)),
    decreases n,
{
    if n > 0 {
        lemma_endowments_agents(agents, n - 1);
        let done = agents.take(n - 1);
        let next = agents.take(n);
        assert forall|id: Seq<char>|
            agent_ids(next).contains(id) <==> agent_ids(done).contains(id) || id == agents[n
                - 1].id by {
            if agent_ids(done).contains(id) {
                let k = choose|k: int| 0 <= k < done.len() && (#[trigger] done[k]).id == id;
                assert(next[k].id == id);
            }
            if agent_ids(next).contains(id) {
                let k = choose|k: int| 0 <= k < next.len() && (#[trigger] next[k]).id == id;
                if k < n - 1 {
                    assert(done[k].id == id);
                }
            }
            assert(next[n - 1].id == agents[n - 1].id);
        }
    }
}

/// Where no two agents share an identifier, the endowment allocation gives
/// each agent its own endowment.
pub proof fn lemma_endowments_own(agents: Seq<AgentView>, n: int, k: int)
    requires
        distinct_ids(agents),
        0 <= k < n <= agents.len(),
    ensures
        endowments(agents, n).contains_key(agents[k].id),
        endowments(agents, n)[agents[k].id] == agents[k].endowment,
    decreases n,
{
    if k < n - 1 {
        lemma_endowments_own(agents, n - 1, k);
    }
}

/// A pair that is tried leaves no agent worse off.
pub proof fn lemma_after_pair(
    agents: Seq<AgentView>,
    allocation: Map<Seq<char>, Seq<GoodView>>,
    i: int,
    j: int,
)
    ensures
        never_worse(agents, allocation, after_pair(agents, allocation, i, j)),
{
    let after = after_pair(agents, allocation, i, j);
    if trade_commits(agents, allocation, i, j) {
        assert(after.dom() =~= allocation.dom());
    }
}

/// Being never worse off carries over from step to step.
pub proof fn lemma_never_worse_chain(
    agents: Seq<AgentView>,
    first: Map<Seq<char>, Seq<GoodView>>,
    second: Map<Seq<char>, Seq<GoodView>>,
    third: Map<Seq<char>, Seq<GoodView>>,
)
    requires
        never_worse(agents, first, second),
        never_worse(agents, second, third),
    ensures
        never_worse(agents, first, third),
{
}

/// The pairs of a row leave no agent worse off.
pub proof fn lemma_after_row(
    agents: Seq<AgentView>,
    allocation: Map<Seq<char>, Seq<GoodView>>,
    i: int,
    j: int,
)
    ensures
        never_worse(agents, allocation, after_row(agents, allocation, i, j)),
    decreases j - i,
{
    if j > i + 1 {
        let mid = after_row(agents, allocation, i, j - 1);
        lemma_after_row(agents, allocation, i, j - 1);
        lemma_after_pair(agents, mid, i, j - 1);
        lemma_never_worse_chain(agents, allocation, mid, after_pair(agents, mid, i, j - 1));
    }
}

/// The rows of a round leave no agent worse off.
pub proof fn lemma_after_rows(
    agents: Seq<AgentView>,
    allocation: Map<Seq<char>, Seq<GoodView>>,
    i: int,
)
    ensures
        never_worse(agents, allocation, after_rows(agents, allocation, i)),
    decreases i,
{
    if i > 0 {
        let mid = after_rows(agents, allocation, i - 1);
        lemma_after_rows(agents, allocation, i - 1);
        lemma_after_row(agents, mid, i - 1, agents.len() as int);
        lemma_never_worse_chain(
            agents,
            allocation,
            mid,
            after_row(agents, mid, i - 1, agents.len() as int),
        );
    }
}

/// The search gives a bundle to exactly the agents that held one at its
/// start, and to none of them one that it values less than what it held
/// then: every committed swap is a gain for the two that swap and a loss for
/// nobody.
pub proof fn lemma_search_never_worse(
    agents: Seq<AgentView>,
    allocation: Map<Seq<char>, Seq<GoodView>>,
    rounds: nat,
)
    ensures
        never_worse(agents, allocation, search_after(agents, allocation, rounds)),
    decreases rounds,
{
    if rounds > 0 {
        let next = after_round(agents, allocation);
        lemma_after_rows(agents, allocation, agents.len() as int);
        if round_commits(agents, allocation) {
            lemma_search_never_worse(agents, next, (rounds - 1) as nat);
            lemma_never_worse_chain(
                agents,
                allocation,
                next,
                search_after(agents, next, (rounds - 1) as nat),
            );
        }
    }
}

/// What the search finds holds a bundle for each agent and for no one
/// else. Where no two agents share an identifier, each values its bundle at
/// least as much as its endowment, so that the allocation is individually
/// rational.
pub proof fn lemma_found_allocation(agents: Seq<AgentView>)
    ensures
        found_allocation(agents).dom() == agent_ids(agents),
        distinct_ids(agents) ==> forall|k: int|
            0 <= k < agents.len() ==> (#[trigger] agents[k]).preference(
                found_allocation(agents)[agents[k].id],
            ) >= agents[k].preference(agents[k].endowment),
        distinct_ids(agents) ==> individually_rational(agents, found_allocation(agents)),
{
    let n = agents.len() as int;
    let start = endowments(agents, n);
    lemma_endowments_agents(agents, n);
    assert(agents.take(n) =~= agents);
    lemma_search_never_worse(agents, start, MAX_SWAP_ROUNDS as nat);
    if distinct_ids(agents) {
        assert forall|k: int| 0 <= k < agents.len() implies (#[trigger] agents[k]).preference(
            found_allocation(agents)[agents[k].id],
        ) >= agents[k].preference(agents[k].endowment) by {
            lemma_endowments_own(agents, n, k);
        }
    }
}

/// A tolerance that admits an allocation admits it when it is made larger.
pub proof fn lemma_feasible_monotone(
    allocation: Map<Seq<char>, Seq<GoodView>>,
    goods: Seq<GoodView>,
    smaller: int,
    larger: int,
)
    requires
        smaller <= larger,
        feasible(allocation, goods, smaller),
    ensures
        feasible(allocation, goods, larger),
{
}

/// If no pair of agents gains by a swap, the search returns the allocation
/// that it started from.
pub proof fn lemma_search_fixed_point(
    agents: Seq<AgentView>,
    allocation: Map<Seq<char>, Seq<GoodView>>,
    rounds: nat,
)
    requires
        pairwise_efficient(agents, allocation),
    ensures
        search_after(agents, allocation, rounds) == allocation,
{
    lemma_efficient_rows(agents, allocation, agents.len() as int);
}

/// In an allocation where no pair gains by a swap, a row commits none.
pub proof fn lemma_efficient_row(
    agents: Seq<AgentView>,
    allocation: Map<Seq<char>, Seq<GoodView>>,
    i: int,
    j: int,
)
    requires
        pairwise_efficient(agents, allocation),
        0 <= i < j <= agents.len(),
    ensures
        !row_commits(agents, allocation, i, j),
        after_row(agents, allocation, i, j) == allocation,
    decreases j - i,
{
    if j > i + 1 {
        lemma_efficient_row(agents, allocation, i, j - 1);
    }
}

/// In an allocation where no pair gains by a swap, no row commits one.
pub proof fn lemma_efficient_rows(
    agents: Seq<AgentView>,
    allocation: Map<Seq<char>, Seq<GoodView>>,
    i: int,
)
    requires
        pairwise_efficient(agents, allocation),
        0 <= i <= agents.len(),
    ensures
        !rows_commit(agents, allocation, i),
        after_rows(agents, allocation, i) == allocation,
    decreases i,
{
    if i > 0 {
        lemma_efficient_rows(agents, allocation, i - 1);
        lemma_efficient_row(agents, allocation, i - 1, agents.len() as int);
    }
}

/// The mechanism and its one parameter.
#[derive(Debug)]
pub struct BRACEMechanism {
    /// The tolerance, as an amount: by how much a good may be held more than
    /// once, and below which rise the price search stops.
    pub epsilon: i64,
}

impl BRACEMechanism {
    /// The mechanism with the tolerance `epsilon`.
    pub fn new(epsilon: i64) -> (r: Self)
        ensures
            r.epsilon == epsilon,
    {
        Self { epsilon }
    }

    /// Tries the swap of the whole bundles of two agents: the allocation
    /// after it, if each of them strictly prefers the other's bundle.
    pub fn try_trade(
        &self,
        agent1: &Agent,
        agent2: &Agent,
        current_allocation: &Allocation,
        _prices: &PriceVector,
    ) -> (r: Option<Allocation>)
        ensures
            r.is_some() == mutual_gain(current_allocation@, agent1@, agent2@),
            match r {
                Some(a) => a@ == swapped(current_allocation@, agent1@, agent2@),
                None => true,
            },
    {
        let bundle1: Bundle = match current_allocation.get_bundle(agent1.id.as_str()) {
            Some(b) => b.clone(),
            None => {
                return None;
            },
        };
        let bundle2: Bundle = match current_allocation.get_bundle(agent2.id.as_str()) {
            Some(b) => b.clone(),
            None => {
                return None;
            },
        };
        let agent1_better: bool = agent1.prefers(&bundle2, &bundle1);
        let agent2_better: bool = agent2.prefers(&bundle1, &bundle2);
        if agent1_better && agent2_better {
            let mut new_allocation = current_allocation.clone();
            new_allocation.assign(agent1.id.clone(), bundle2);
            new_allocation.assign(agent2.id.clone(), bundle1);
            Some(new_allocation)
        } else {
            None
        }
    }

    /// Whether `new_allocation` is a Pareto improvement on `old_allocation`
    /// for `agents`.
    pub fn is_pareto_improving(
        &self,
        agents: &[Agent],
        old_allocation: &Allocation,
        new_allocation: &Allocation,
    ) -> (r: bool)
        ensures
            r == pareto_improving(agent_views(agents@), old_allocation@, new_allocation@),
    {
        let ghost views = agent_views(agents@);
        let ghost before = old_allocation@;
        let ghost after = new_allocation@;
        let mut at_least_one_better: bool = false;
        let n: usize = agents.len();
        let mut k: usize = 0;
        while k < n
            invariant
                n == agents.len(),
                k <= n,
                views == agent_views(agents@),
                before == old_allocation@,
                after == new_allocation@,
                forall|q: int|
                    0 <= q < k && before.contains_key((#[trigger] views[q]).id)
                        && after.contains_key(views[q].id) ==> !views[q].prefers(
                        before[views[q].id],
                        after[views[q].id],
                    ),
                at_least_one_better <==> exists|q: int|
                    0 <= q < k && before.contains_key((#[trigger] views[q]).id)
                        && after.contains_key(views[q].id) && views[q].prefers(
                        after[views[q].id],
                        before[views[q].id],
                    ),
            decreases n - k,
        {
            let agent = &agents[k];
            assert(views[k as int] == agent@);
            let old_bundle = old_allocation.get_bundle(agent.id.as_str());
            let new_bundle = new_allocation.get_bundle(agent.id.as_str());
            match (old_bundle, new_bundle) {
                (Some(old), Some(new)) => {
                    if agent.prefers(new, old) {
                        at_least_one_better = true;
                    } else if agent.prefers(old, new) {
                        return false;
                    }
                },
                _ => {},
            }
            k = k + 1;
        }
        at_least_one_better
    }

    /// One round of the search: every pair of agents is tried once, in the
    /// order of `agents`, and a swap that is committed changes `allocation` at
    /// once, for the pairs that follow. The answer says whether any was.
    pub fn improve_allocation(
        &self,
        agents: &[Agent],
        _goods: &[Good],
        allocation: &mut Allocation,
        prices: &mut PriceVector,
    ) -> (improved: bool)
        ensures
            final(allocation)@ == after_round(agent_views(agents@), old(allocation)@),
            improved == round_commits(agent_views(agents@), old(allocation)@),
            final(prices)@ == old(prices)@,
    {
        let ghost views = agent_views(agents@);
        let ghost start = allocation@;
        let mut improved: bool = false;
        let n: usize = agents.len();
        let mut i: usize = 0;
        while i < n
            invariant
                n == agents.len(),
                i <= n,
                views == agent_views(agents@),
                allocation@ == after_rows(views, start, i as int),
                improved == rows_commit(views, start, i as int),
                prices@ == old(prices)@,
            decreases n - i,
        {
            let ghost row_start = allocation@;
            let ghost improved_before = improved;
            let mut j: usize = i + 1;
            while j < n
                invariant
                    n == agents.len(),
                    i < n,
                    i + 1 <= j <= n,
                    views == agent_views(agents@),
                    allocation@ == after_row(views, row_start, i as int, j as int),
                    improved == (improved_before || row_commits(
                        views,
                        row_start,
                        i as int,
                        j as int,
                    )),
                    prices@ == old(prices)@,
                decreases n - j,
            {
                match self.try_trade(&agents[i], &agents[j], allocation, prices) {
                    Some(new_allocation) => {
                        if self.is_pareto_improving(agents, allocation, &new_allocation) {
                            *allocation = new_allocation;
                            improved = true;
                        }
                    },
                    None => {},
                }
                j = j + 1;
            }
            i = i + 1;
        }
        improved
    }
    /// Searches for an allocation and prices that support it. The search
    /// starts from the endowments and runs rounds of swaps until a round
    /// commits none, at most `MAX_SWAP_ROUNDS` of them; the prices are then
    /// sought for what it found.
    pub fn compute_allocation(&self, agents: &[Agent], goods: &[Good]) -> (r: (
        Allocation,
        PriceVector,
    ))
        requires
            agents.len() <= MAX_AGENTS,
        ensures
            r.0@ == found_allocation(agent_views(agents@)),
            r.1@ == equilibrium_prices(
                agent_views(agents@),
                good_views(goods@),
                r.0@,
                self.epsilon as int,
            ),
            r.0@.dom() == agent_ids(agent_views(agents@)),
            distinct_ids(agent_views(agents@)) ==> forall|k: int|
                0 <= k < agents.len() ==> (#[trigger] agents[k])@.preference(r.0@[agents[k]@.id])
                    >= agents[k]@.preference(agents[k]@.endowment),
    {
        let ghost views = agent_views(agents@);
        let mut allocation = Allocation::new();
        let n: usize = agents.len();
        let mut k: usize = 0;
        while k < n
            invariant
                n == agents.len(),
                k <= n,
                views == agent_views(agents@),
                allocation@ == endowments(views, k as int),
            decreases n - k,
        {
            allocation.assign(agents[k].id.clone(), agents[k].endowment.clone());
            k = k + 1;
        }
        let mut prices = PriceVector::new();
        let count: usize = goods.len();
        let mut g: usize = 0;
        while g < count
            invariant
                count == goods.len(),
                g <= count,
            decreases count - g,
        {
            prices.set_price(goods[g].id.clone(), 0);
            g = g + 1;
        }
        let mut round: usize = 0;
        while round < MAX_SWAP_ROUNDS
            invariant_except_break
                found_allocation(views) == search_after(
                    views,
                    allocation@,
                    (MAX_SWAP_ROUNDS - round) as nat,
                ),
            invariant
                round <= MAX_SWAP_ROUNDS,
                views == agent_views(agents@),
            ensures
                allocation@ == found_allocation(views),
            decreases MAX_SWAP_ROUNDS - round,
        {
            let improved: bool = self.improve_allocation(
                agents,
                goods,
                &mut allocation,
                &mut prices,
            );
            if !improved {
                break ;
            }
            round = round + 1;
        }
        let final_prices = compute_equilibrium_prices(agents, goods, &allocation, self.epsilon);
        proof {
            lemma_found_allocation(views);
            assert forall|k: int| 0 <= k < agents.len() implies (#[trigger] agents[k])@
                == views[k] by {}
        }
        (allocation, final_prices)
    }

    /// Whether `allocation` is approximately feasible: whether none of
    /// `goods` is held by more agents than 1 and the tolerance allow.
    pub fn verify_feasibility(&self, allocation: &Allocation, goods: &[Good]) -> (r: bool)
        ensures
            r == feasible(allocation@, good_views(goods@), self.epsilon as int),
    {
        let ghost listed = good_views(goods@);
        let table = &allocation.assignments;
        let m: usize = table.len();
        let ghost keys = table.keys();
        let n: usize = goods.len();
        let mut g: usize = 0;
        while g < n
            invariant
                n == goods.len(),
                g <= n,
                listed == good_views(goods@),
                table == &allocation.assignments,
                m == keys.len(),
                keys == table.keys(),
                table.wf(),
                forall|q: int|
                    0 <= q < g ==> holders(allocation@, (#[trigger] listed[q]).id) * UNITS_PER_ONE
                        <= UNITS_PER_ONE + self.epsilon,
            decreases n - g,
        {
            let good = &goods[g];
            assert(listed[g as int] == good@);
            let ghost test = holds_good(allocation@, good@.id);
            let mut count: usize = 0;
            let mut i: usize = 0;
            proof {
                reveal(Seq::filter);
            }
            while i < m
                invariant
                    m == keys.len(),
                    keys == table.keys(),
                    table == &allocation.assignments,
                    table.wf(),
                    i <= m,
                    test == holds_good(allocation@, good@.id),
                    count == keys.take(i as int).filter(test).len(),
                    count <= i,
                decreases m - i,
            {
                let held: bool = table.value_at(i).contains(good);
                proof {
                    assert(keys.take(i as int + 1) =~= keys.take(i as int).push(keys[i as int]));
                    keys.take(i as int).lemma_filter_push(keys[i as int], test);
                }
                if held {
                    count = count + 1;
                }
                i = i + 1;
            }
            proof {
                assert(keys.take(m as int) =~= keys);
                lemma_count_distinct(keys, test);
                assert(keys.to_set() =~= allocation@.dom());
            }
            if (count as i128) * (UNITS_PER_ONE as i128) > (UNITS_PER_ONE as i128) + (
            self.epsilon as i128) {
                return false;
            }
            g = g + 1;
        }
        true
    }

    /// Whether `allocation` is individually rational: whether no agent that
    /// holds a bundle strictly prefers its endowment to it.
    pub fn verify_individual_rationality(&self, agents: &[Agent], allocation: &Allocation) -> (r:
        bool)
        ensures
            r == individually_rational(agent_views(agents@), allocation@),
    {
        let ghost views = agent_views(agents@);
        let n: usize = agents.len();
        let mut k: usize = 0;
        while k < n
            invariant
                n == agents.len(),
                k <= n,
                views == agent_views(agents@),
                forall|q: int|
                    0 <= q < k && allocation@.contains_key((#[trigger] views[q]).id)
                        ==> !views[q].prefers(views[q].endowment, allocation@[views[q].id]),
            decreases n - k,
        {
            let agent = &agents[k];
            assert(views[k as int] == agent@);
            match allocation.get_bundle(agent.id.as_str()) {
                Some(bundle) => {
                    if agent.prefers(&agent.endowment, bundle) {
                        return false;
                    }
                },
                None => {},
            }
            k = k + 1;
        }
        true
    }

    /// Whether no two agents would both gain by exchanging their bundles: a
    /// condition that every efficient allocation meets, and not every
    /// allocation that meets it is efficient.
    pub fn verify_ordinal_efficiency(&self, agents: &[Agent], allocation: &Allocation) -> (r: bool)
        ensures
            r == pairwise_efficient(agent_views(agents@), allocation@),
    {
        let ghost views = agent_views(agents@);
        let n: usize = agents.len();
        let mut i: usize = 0;
        while i < n
            invariant
                n == agents.len(),
                i <= n,
                views == agent_views(agents@),
                forall|p: int, q: int|
                    0 <= p < i && p < q < n ==> !mutual_gain(
                        allocation@,
                        #[trigger] views[p],
                        #[trigger] views[q],
                    ),
            decreases n - i,
        {
            let mut j: usize = i + 1;
            while j < n
                invariant
                    n == agents.len(),
                    i < n,
                    i + 1 <= j <= n,
                    views == agent_views(agents@),
                    forall|p: int, q: int|
                        0 <= p < i && p < q < n ==> !mutual_gain(
                            allocation@,
                            #[trigger] views[p],
                            #[trigger] views[q],
                        ),
                    forall|q: int|
                        i < q < j ==> !mutual_gain(
                            allocation@,
                            views[i as int],
                            #[trigger] views[q],
                        ),
                decreases n - j,
            {
                assert(views[i as int] == agents[i as int]@);
                assert(views[j as int] == agents[j as int]@);
                let bundle_i = allocation.get_bundle(agents[i].id.as_str());
                let bundle_j = allocation.get_bundle(agents[j].id.as_str());
                match (bundle_i, bundle_j) {
                    (Some(bi), Some(bj)) => {
                        if agents[i].prefers(bj, bi) && agents[j].prefers(bi, bj) {
                            return false;
                        }
                    },
                    _ => {},
                }
                j = j + 1;
            }
            i = i + 1;
        }
        true
    }
}

} // verus!
