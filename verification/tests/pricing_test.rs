use brace_sybil::pricing::{
    apply_deltas, compute_equilibrium_prices, holds_demanded, largest_delta, round_deltas,
    DEMAND_TOLERANCE, MAX_PRICE_ROUNDS, PRICE_STEP, UNITS_PER_ONE,
};
use brace_sybil::{Agent, Allocation, Bundle, Good, PriceVector, Table};

const ONE: i64 = UNITS_PER_ONE;

fn good(id: &str) -> Good {
    Good { id: id.to_string(), name: format!("Good {}", id) }
}

fn bundle(ids: &[&str]) -> Bundle {
    let mut b = Bundle::new();
    for id in ids {
        b.insert(good(id));
    }
    b
}

fn ids_of(b: &Bundle) -> Vec<String> {
    b.goods().iter().map(|g| g.id.clone()).collect()
}

fn agent(id: &str, endowment: &[&str], values: &[(&[&str], i64)]) -> Agent {
    let mut a = Agent::new(id.to_string(), bundle(endowment));
    for (ids, v) in values {
        a.add_preference(bundle(ids), *v);
    }
    a
}

#[test]
fn the_units_are_those_of_the_constants() {
    assert_eq!(UNITS_PER_ONE, 1_000_000_000_000);
    assert_eq!(PRICE_STEP * 10, UNITS_PER_ONE);
    assert_eq!(DEMAND_TOLERANCE * 1_000_000_000, UNITS_PER_ONE);
    assert_eq!(MAX_PRICE_ROUNDS, 1000);
}

#[test]
fn price_of_an_unknown_good_is_zero() {
    let mut prices = PriceVector::new();
    assert_eq!(prices.get_price("A"), 0);
    prices.set_price("A".to_string(), 3 * ONE);
    assert_eq!(prices.get_price("A"), 3 * ONE);
    assert_eq!(prices.get_price("B"), 0);
    assert_eq!(prices.get_price(""), 0);
    prices.set_price("A".to_string(), 4 * ONE);
    assert_eq!(prices.get_price("A"), 4 * ONE);
    assert_eq!(prices.all_prices().len(), 1);
    assert_eq!(PriceVector::default().get_price("A"), 0);
}

#[test]
fn price_vector_from_and_into_a_table() {
    let mut table: Table<String, i64> = Table::new();
    table.insert("A".to_string(), 2);
    table.insert("B".to_string(), 5);
    let prices = PriceVector::from_map(table);
    assert_eq!(prices.get_price("A"), 2);
    assert_eq!(prices.get_price("B"), 5);
    assert_eq!(prices.get_price("C"), 0);
    let back = prices.into_map();
    assert_eq!(back.len(), 2);
    assert_eq!(back.get(&"B".to_string()), Some(&5));
}

#[test]
fn bundle_price_is_the_sum_of_the_prices() {
    let mut prices = PriceVector::new();
    prices.set_price("A".to_string(), 3 * ONE);
    prices.set_price("B".to_string(), ONE / 2);
    assert_eq!(prices.bundle_price(&bundle(&["A", "B"])), (3 * ONE + ONE / 2) as i128);
    assert_eq!(prices.bundle_price(&bundle(&["A", "C"])), (3 * ONE) as i128);
    assert_eq!(prices.bundle_price(&Bundle::new()), 0);
}

#[test]
fn bundle_price_does_not_overflow_an_amount() {
    let mut prices = PriceVector::new();
    prices.set_price("A".to_string(), i64::MAX);
    prices.set_price("B".to_string(), i64::MAX);
    assert_eq!(prices.bundle_price(&bundle(&["A", "B"])), 2 * (i64::MAX as i128));
    let a = agent("Agent1", &[], &[(&["A", "B"], i64::MIN)]);
    assert_eq!(
        prices.net_utility(&a, &bundle(&["A", "B"])),
        (i64::MIN as i128) - 2 * (i64::MAX as i128)
    );
}

#[test]
fn net_utility_is_value_less_price() {
    let a = agent("Agent1", &["A"], &[(&["A", "B"], 10 * ONE), (&["A"], 5 * ONE)]);
    let mut prices = PriceVector::new();
    prices.set_price("A".to_string(), 2 * ONE);
    prices.set_price("B".to_string(), 3 * ONE);
    assert_eq!(prices.net_utility(&a, &bundle(&["A", "B"])), (5 * ONE) as i128);
    assert_eq!(prices.net_utility(&a, &bundle(&["A"])), (3 * ONE) as i128);
    assert_eq!(prices.net_utility(&a, &bundle(&["B"])), (-3 * ONE) as i128);
}

#[test]
fn demand_set_is_the_best_registered_bundles() {
    let a = agent("Agent1", &["A"], &[(&["A", "B"], 10 * ONE), (&["A"], 5 * ONE)]);
    let prices = PriceVector::new();
    let demand = prices.demand_set(&a);
    assert_eq!(demand.len(), 1);
    assert_eq!(ids_of(&demand[0]), vec!["A".to_string(), "B".to_string()]);

    let mut dear = PriceVector::new();
    dear.set_price("B".to_string(), 6 * ONE);
    let demand = dear.demand_set(&a);
    assert_eq!(demand.len(), 1);
    assert_eq!(ids_of(&demand[0]), vec!["A".to_string()]);
}

#[test]
fn demand_set_of_an_agent_without_bundles_is_empty() {
    let a = agent("Agent1", &["A"], &[]);
    let mut prices = PriceVector::new();
    prices.set_price("A".to_string(), ONE);
    assert!(prices.demand_set(&a).is_empty());
    assert!(PriceVector::new().demand_set(&a).is_empty());
}

#[test]
fn demand_set_holds_every_tie() {
    let a = agent(
        "Agent1",
        &["A"],
        &[(&["A"], 5 * ONE), (&["B"], 3 * ONE), (&["C"], 5 * ONE), (&["D"], 5 * ONE)],
    );
    let demand = PriceVector::new().demand_set(&a);
    assert_eq!(demand.len(), 3);
    assert_eq!(ids_of(&demand[0]), vec!["A".to_string()]);
    assert_eq!(ids_of(&demand[1]), vec!["C".to_string()]);
    assert_eq!(ids_of(&demand[2]), vec!["D".to_string()]);
}

#[test]
fn demand_set_holds_what_is_within_the_tolerance_of_the_best() {
    // The best comes second: what came first and is less by under the
    // tolerance is demanded with it, what is less by the tolerance is not.
    let a = agent(
        "Agent1",
        &[],
        &[
            (&["A"], 5 * ONE - (DEMAND_TOLERANCE - 1)),
            (&["B"], 5 * ONE),
            (&["C"], 5 * ONE - DEMAND_TOLERANCE),
            (&["D"], 5 * ONE - 1),
        ],
    );
    let demand = PriceVector::new().demand_set(&a);
    assert_eq!(demand.len(), 3);
    assert_eq!(ids_of(&demand[0]), vec!["A".to_string()]);
    assert_eq!(ids_of(&demand[1]), vec!["B".to_string()]);
    assert_eq!(ids_of(&demand[2]), vec!["D".to_string()]);
}

#[test]
fn demand_set_with_negative_utilities() {
    let a = agent("Agent1", &[], &[(&["A"], -5 * ONE), (&["B"], -5 * ONE - 1), (&["C"], -6 * ONE)]);
    let demand = PriceVector::new().demand_set(&a);
    assert_eq!(demand.len(), 2);
    assert_eq!(ids_of(&demand[0]), vec!["A".to_string()]);
    assert_eq!(ids_of(&demand[1]), vec!["B".to_string()]);
}

#[test]
fn demand_set_with_the_largest_amounts() {
    let a = agent("Agent1", &[], &[(&["A"], i64::MIN), (&["B"], i64::MAX), (&["C"], i64::MAX - 1)]);
    let demand = PriceVector::new().demand_set(&a);
    assert_eq!(demand.len(), 2);
    assert_eq!(ids_of(&demand[0]), vec!["B".to_string()]);
    assert_eq!(ids_of(&demand[1]), vec!["C".to_string()]);
}

#[test]
fn demand_set_is_a_part_of_the_registered_bundles() {
    let a = agent(
        "Agent1",
        &[],
        &[(&["A"], 4 * ONE), (&["A", "B"], 9 * ONE), (&["B"], 9 * ONE), (&["C"], ONE)],
    );
    let mut prices = PriceVector::new();
    prices.set_price("A".to_string(), ONE);
    let demand = prices.demand_set(&a);
    let registered: Vec<Vec<String>> = a.preference_bundles().iter().map(ids_of).collect();
    for d in &demand {
        assert!(registered.contains(&ids_of(d)));
    }
    assert_eq!(demand.len(), 1);
    assert_eq!(ids_of(&demand[0]), vec!["B".to_string()]);
}

#[test]
fn holds_demanded_compares_by_identifiers() {
    let a = agent("Agent1", &["A"], &[(&["A", "B"], 10 * ONE), (&["A"], 5 * ONE)]);
    let prices = PriceVector::new();
    assert!(holds_demanded(&prices, &a, &bundle(&["B", "A"])));
    assert!(!holds_demanded(&prices, &a, &bundle(&["A"])));
    assert!(!holds_demanded(&prices, &a, &bundle(&["B"])));
    assert!(!holds_demanded(&prices, &agent("Agent2", &[], &[]), &Bundle::new()));
}

#[test]
fn prices_stay_at_zero_when_every_agent_holds_what_it_demands() {
    let agents = vec![
        agent("Agent1", &["A"], &[(&["A"], 5 * ONE), (&["B"], 2 * ONE)]),
        agent("Agent2", &["B"], &[(&["B"], 4 * ONE)]),
    ];
    let goods = vec![good("A"), good("B")];
    let mut allocation = Allocation::new();
    allocation.assign("Agent1".to_string(), bundle(&["A"]));
    allocation.assign("Agent2".to_string(), bundle(&["B"]));
    let prices = compute_equilibrium_prices(&agents, &goods, &allocation, ONE / 100);
    assert_eq!(prices.all_prices().len(), 2);
    assert!(prices.all_prices().contains_key(&"A".to_string()));
    assert!(prices.all_prices().contains_key(&"B".to_string()));
    assert_eq!(prices.get_price("A"), 0);
    assert_eq!(prices.get_price("B"), 0);
}

#[test]
fn a_price_rises_by_a_step_in_each_round_until_the_last() {
    // Agent1 holds A and wants B more; nothing ever lowers a price.
    let agents = vec![agent("Agent1", &["A"], &[(&["A"], 5 * ONE), (&["B"], 10 * ONE)])];
    let goods = vec![good("A"), good("B")];
    let mut allocation = Allocation::new();
    allocation.assign("Agent1".to_string(), bundle(&["A"]));
    let prices = compute_equilibrium_prices(&agents, &goods, &allocation, ONE / 100);
    assert_eq!(prices.get_price("A"), 1000 * PRICE_STEP);
    assert_eq!(prices.get_price("A"), 100 * ONE);
    assert_eq!(prices.get_price("B"), 0);
}

#[test]
fn the_search_stops_at_once_where_a_step_is_below_the_tolerance() {
    let agents = vec![agent("Agent1", &["A"], &[(&["A"], 5 * ONE), (&["B"], 10 * ONE)])];
    let goods = vec![good("A"), good("B")];
    let mut allocation = Allocation::new();
    allocation.assign("Agent1".to_string(), bundle(&["A"]));
    let prices = compute_equilibrium_prices(&agents, &goods, &allocation, PRICE_STEP + 1);
    assert_eq!(prices.get_price("A"), 0);
    // A step that equals the tolerance is not below it.
    let prices = compute_equilibrium_prices(&agents, &goods, &allocation, PRICE_STEP);
    assert_eq!(prices.get_price("A"), 1000 * PRICE_STEP);
}

#[test]
fn the_search_never_stops_early_where_the_tolerance_is_not_positive() {
    let agents = vec![agent("Agent1", &["A"], &[(&["A"], 5 * ONE)])];
    let goods = vec![good("A")];
    let mut allocation = Allocation::new();
    allocation.assign("Agent1".to_string(), bundle(&["A"]));
    let prices = compute_equilibrium_prices(&agents, &goods, &allocation, 0);
    assert_eq!(prices.get_price("A"), 0);
    assert_eq!(prices.all_prices().len(), 1);
}

#[test]
fn rises_of_several_agents_on_one_good_add_up() {
    // Both agents hold A (an infeasible allocation) and want something else.
    let agents = vec![
        agent("Agent1", &["A"], &[(&["B"], 10 * ONE)]),
        agent("Agent2", &["A"], &[(&["C"], 10 * ONE)]),
        agent("Agent3", &["B"], &[(&["B"], ONE)]),
    ];
    let mut allocation = Allocation::new();
    allocation.assign("Agent1".to_string(), bundle(&["A", "D"]));
    allocation.assign("Agent2".to_string(), bundle(&["A"]));
    allocation.assign("Agent3".to_string(), bundle(&["B"]));
    let prices = PriceVector::new();
    let deltas = round_deltas(&prices, &agents, &allocation);
    assert_eq!(deltas.get_price("A"), 2 * PRICE_STEP);
    assert_eq!(deltas.get_price("D"), PRICE_STEP);
    assert_eq!(deltas.get_price("B"), 0);
    assert_eq!(deltas.all_prices().len(), 2);
    assert_eq!(largest_delta(&deltas), 2 * PRICE_STEP);
}

#[test]
fn an_agent_without_a_bundle_raises_nothing() {
    let agents = vec![agent("Agent1", &["A"], &[(&["B"], 10 * ONE)])];
    let allocation = Allocation::new();
    let deltas = round_deltas(&PriceVector::new(), &agents, &allocation);
    assert_eq!(deltas.all_prices().len(), 0);
    assert_eq!(largest_delta(&deltas), 0);
}

#[test]
fn deltas_are_added_to_the_prices() {
    let mut prices = PriceVector::new();
    prices.set_price("A".to_string(), ONE);
    prices.set_price("B".to_string(), 2 * ONE);
    let mut deltas = PriceVector::new();
    deltas.set_price("B".to_string(), PRICE_STEP);
    deltas.set_price("C".to_string(), 3 * PRICE_STEP);
    apply_deltas(&mut prices, &deltas);
    assert_eq!(prices.get_price("A"), ONE);
    assert_eq!(prices.get_price("B"), 2 * ONE + PRICE_STEP);
    assert_eq!(prices.get_price("C"), 3 * PRICE_STEP);
    assert_eq!(prices.all_prices().len(), 3);
}

#[test]
fn a_good_outside_the_list_gets_a_price_when_it_rises() {
    let agents = vec![agent("Agent1", &["X"], &[(&["A"], 10 * ONE)])];
    let goods = vec![good("A")];
    let mut allocation = Allocation::new();
    allocation.assign("Agent1".to_string(), bundle(&["X"]));
    let prices = compute_equilibrium_prices(&agents, &goods, &allocation, ONE / 100);
    assert_eq!(prices.get_price("X"), 1000 * PRICE_STEP);
    assert_eq!(prices.get_price("A"), 0);
    assert_eq!(prices.all_prices().len(), 2);
}

#[test]
fn the_goods_of_a_held_bundle_rise_together() {
    // Agent1 holds A and B and would rather hold C: raising A and B only
    // makes what it holds dearer, so the search runs to its last round.
    let agents = vec![agent(
        "Agent1",
        &["A", "B"],
        &[(&["A", "B"], 5 * ONE), (&["C"], 5 * ONE + ONE / 4)],
    )];
    let goods = vec![good("A"), good("B"), good("C")];
    let mut allocation = Allocation::new();
    allocation.assign("Agent1".to_string(), bundle(&["A", "B"]));
    let prices = compute_equilibrium_prices(&agents, &goods, &allocation, ONE / 100);
    assert_eq!(prices.get_price("A"), 1000 * PRICE_STEP);
    assert_eq!(prices.get_price("B"), 1000 * PRICE_STEP);
    assert_eq!(prices.get_price("C"), 0);
}

#[test]
fn a_tie_within_the_tolerance_keeps_the_prices_at_zero() {
    // What Agent1 holds is worth a little less than the best, by less than
    // the tolerance: it is in the demand set, and nothing rises.
    let agents = vec![agent(
        "Agent1",
        &["A"],
        &[(&["A"], 5 * ONE - DEMAND_TOLERANCE + 1), (&["B"], 5 * ONE)],
    )];
    let goods = vec![good("A"), good("B")];
    let mut allocation = Allocation::new();
    allocation.assign("Agent1".to_string(), bundle(&["A"]));
    let prices = compute_equilibrium_prices(&agents, &goods, &allocation, ONE / 100);
    assert_eq!(prices.get_price("A"), 0);
    assert_eq!(prices.get_price("B"), 0);
    assert_eq!(prices.all_prices().len(), 2);
}

#[test]
fn no_agents_and_no_goods_give_no_prices() {
    let agents: Vec<Agent> = Vec::new();
    let goods: Vec<Good> = Vec::new();
    let prices = compute_equilibrium_prices(&agents, &goods, &Allocation::new(), ONE / 100);
    assert_eq!(prices.all_prices().len(), 0);
}

#[test]
fn a_copy_of_the_prices_holds_the_same() {
    let mut prices = PriceVector::new();
    prices.set_price("A".to_string(), 3 * ONE);
    let copy = prices.clone();
    prices.set_price("A".to_string(), 4 * ONE);
    assert_eq!(copy.get_price("A"), 3 * ONE);
    assert_eq!(copy.get_price("B"), 0);
    assert_eq!(copy.all_prices().len(), 1);
}
