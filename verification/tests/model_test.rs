use brace_sybil::ident::comes_before;
use brace_sybil::table::TableKey;
use brace_sybil::{Agent, Allocation, Bundle, BundleKey, Good, Table};

fn good(id: &str) -> Good {
    Good { id: id.to_string(), name: format!("Good {}", id) }
}

fn bundle(ids: &[&str]) -> Bundle {
    let mut b = Bundle::new();
    for id in ids {
        b.insert(good(id));
    }
    b
}

fn ids_of(b: &Bundle) -> Vec<String> {
    b.goods().iter().map(|g| g.id.clone()).collect()
}

#[test]
fn identifiers_are_ordered_character_by_character() {
    assert!(comes_before("A", "B"));
    assert!(!comes_before("B", "A"));
    assert!(!comes_before("A", "A"));
    assert!(comes_before("", "A"));
    assert!(!comes_before("A", ""));
    assert!(!comes_before("", ""));
    assert!(comes_before("A", "AA"));
    assert!(comes_before("AB", "B"));
    assert!(comes_before("Z", "a"));
    assert!(comes_before("a", "é"));
    assert!(comes_before("é", "日"));
}

#[test]
fn identifier_order_agrees_with_the_order_of_strings() {
    let words = ["", "A", "AA", "AB", "B", "a", "ab", "b", "é", "日本", "日"];
    for x in words {
        for y in words {
            assert_eq!(comes_before(x, y), x < y, "{:?} {:?}", x, y);
        }
    }
}

#[test]
fn goods_are_the_same_when_their_identifiers_are() {
    let a = Good { id: "A".to_string(), name: "one name".to_string() };
    let also_a = Good { id: "A".to_string(), name: "another name".to_string() };
    let b = Good { id: "B".to_string(), name: "one name".to_string() };
    assert!(a == also_a);
    assert!(a != b);
    assert!(a == a.clone());
    assert_eq!(a.clone().name, "one name");
}

#[test]
fn bundle_keeps_goods_in_ascending_order() {
    let b = bundle(&["C", "A", "B"]);
    assert_eq!(ids_of(&b), vec!["A".to_string(), "B".to_string(), "C".to_string()]);
    assert_eq!(b.len(), 3);
}

#[test]
fn bundle_does_not_depend_on_insertion_order() {
    let x = bundle(&["B", "C", "A"]);
    let y = bundle(&["A", "B", "C"]);
    let z = bundle(&["C", "B", "A"]);
    assert_eq!(ids_of(&x), ids_of(&y));
    assert_eq!(ids_of(&y), ids_of(&z));
    assert!(x.same_goods(&y));
    assert!(y.same_goods(&z));
}

#[test]
fn bundle_insert_reports_whether_the_good_is_new() {
    let mut b = Bundle::new();
    assert_eq!(b.len(), 0);
    assert!(b.insert(good("A")));
    assert!(!b.insert(good("A")));
    assert!(b.insert(good("B")));
    assert_eq!(b.len(), 2);
}

#[test]
fn bundle_keeps_the_good_that_came_first() {
    let mut b = Bundle::new();
    b.insert(Good { id: "A".to_string(), name: "first".to_string() });
    let added = b.insert(Good { id: "A".to_string(), name: "second".to_string() });
    assert!(!added);
    assert_eq!(b.len(), 1);
    assert_eq!(b.goods()[0].name, "first");
}

#[test]
fn bundle_contains_goes_by_identifier() {
    let b = bundle(&["A", "C"]);
    assert!(b.contains(&good("A")));
    assert!(b.contains(&Good { id: "C".to_string(), name: "another name".to_string() }));
    assert!(!b.contains(&good("B")));
    assert!(b.contains_id("A"));
    assert!(!b.contains_id("AA"));
    assert!(!Bundle::new().contains_id("A"));
}

#[test]
fn bundles_with_different_goods_are_told_apart() {
    assert!(!bundle(&["A"]).same_goods(&bundle(&["B"])));
    assert!(!bundle(&["A"]).same_goods(&bundle(&["A", "B"])));
    assert!(!bundle(&["A", "B"]).same_goods(&bundle(&["A"])));
    assert!(bundle(&[]).same_goods(&Bundle::new()));
    assert!(!bundle(&["A", "B"]).same_goods(&bundle(&["A", "C"])));
}

#[test]
fn bundle_clone_holds_the_same_goods() {
    let b = bundle(&["B", "A"]);
    let c = b.clone();
    assert_eq!(ids_of(&c), vec!["A".to_string(), "B".to_string()]);
    assert_eq!(c.goods()[0].name, "Good A");
    assert!(b.same_goods(&c));
}

#[test]
fn bundle_key_is_the_sorted_identifiers() {
    let key = BundleKey::from_bundle(&bundle(&["C", "A", "B"]));
    assert_eq!(key.good_ids(), &vec!["A".to_string(), "B".to_string(), "C".to_string()]);
    let empty = BundleKey::from_bundle(&Bundle::new());
    assert!(empty.good_ids().is_empty());
}

#[test]
fn bundle_keys_are_the_same_for_the_same_identifiers() {
    let x = BundleKey::from_bundle(&bundle(&["B", "A"]));
    let y = BundleKey::from_bundle(&bundle(&["A", "B"]));
    let z = BundleKey::from_bundle(&bundle(&["A"]));
    let w = BundleKey::from_bundle(&bundle(&["A", "C"]));
    assert!(x.same_key(&y));
    assert!(!x.same_key(&z));
    assert!(!z.same_key(&x));
    assert!(!x.same_key(&w));
}

#[test]
fn table_maps_each_key_once() {
    let mut t: Table<String, i64> = Table::new();
    assert_eq!(t.len(), 0);
    assert!(t.get(&"A".to_string()).is_none());
    t.insert("A".to_string(), 1);
    t.insert("B".to_string(), 2);
    t.insert("A".to_string(), 3);
    assert_eq!(t.len(), 2);
    assert_eq!(t.get(&"A".to_string()), Some(&3));
    assert_eq!(t.get(&"B".to_string()), Some(&2));
    assert!(t.get(&"C".to_string()).is_none());
    assert!(t.contains_key(&"B".to_string()));
    assert!(!t.contains_key(&"C".to_string()));
    assert_eq!(t.position(&"A".to_string()), Some(0));
    assert_eq!(t.position(&"B".to_string()), Some(1));
    assert_eq!(t.position(&"C".to_string()), None);
    assert_eq!(t.key_at(0), "A");
    assert_eq!(*t.value_at(0), 3);
    assert_eq!(t.key_at(1), "B");
    assert_eq!(*t.value_at(1), 2);
}

#[test]
fn preference_of_an_unregistered_bundle_is_zero() {
    let mut agent = Agent::new("Agent1".to_string(), bundle(&["A"]));
    assert_eq!(agent.preference(&bundle(&["A"])), 0);
    agent.add_preference(bundle(&["A", "B"]), 10);
    assert_eq!(agent.preference(&bundle(&["A"])), 0);
    assert_eq!(agent.preference(&bundle(&["B"])), 0);
    assert_eq!(agent.preference(&Bundle::new()), 0);
    assert_eq!(agent.preference(&bundle(&["B", "A"])), 10);
}

#[test]
fn preference_goes_by_the_set_of_identifiers() {
    let mut agent = Agent::new("Agent1".to_string(), Bundle::new());
    agent.add_preference(bundle(&["C", "A", "B"]), 7);
    assert_eq!(agent.preference(&bundle(&["A", "B", "C"])), 7);
    assert_eq!(agent.preference(&bundle(&["B", "C", "A"])), 7);
}

#[test]
fn later_preference_replaces_the_value_and_lists_the_bundle_again() {
    let mut agent = Agent::new("Agent1".to_string(), Bundle::new());
    agent.add_preference(bundle(&["A"]), 5);
    agent.add_preference(bundle(&["B"]), -3);
    agent.add_preference(bundle(&["A"]), 9);
    assert_eq!(agent.preference(&bundle(&["A"])), 9);
    assert_eq!(agent.preference(&bundle(&["B"])), -3);
    let listed = agent.preference_bundles();
    assert_eq!(listed.len(), 3);
    assert_eq!(ids_of(&listed[0]), vec!["A".to_string()]);
    assert_eq!(ids_of(&listed[1]), vec!["B".to_string()]);
    assert_eq!(ids_of(&listed[2]), vec!["A".to_string()]);
}

#[test]
fn prefers_is_strict() {
    let mut agent = Agent::new("Agent1".to_string(), Bundle::new());
    agent.add_preference(bundle(&["A"]), 5);
    agent.add_preference(bundle(&["B"]), 5);
    agent.add_preference(bundle(&["C"]), 6);
    assert!(!agent.prefers(&bundle(&["A"]), &bundle(&["B"])));
    assert!(!agent.prefers(&bundle(&["B"]), &bundle(&["A"])));
    assert!(agent.prefers(&bundle(&["C"]), &bundle(&["A"])));
    assert!(!agent.prefers(&bundle(&["A"]), &bundle(&["C"])));
    assert!(agent.prefers(&bundle(&["A"]), &bundle(&["D"])));
    assert!(!agent.prefers(&bundle(&["D"]), &bundle(&["E"])));
}

#[test]
fn new_agent_has_no_registered_bundles() {
    let agent = Agent::new("Agent1".to_string(), bundle(&["A"]));
    assert_eq!(agent.id, "Agent1");
    assert_eq!(ids_of(&agent.endowment), vec!["A".to_string()]);
    assert!(agent.preference_bundles().is_empty());
}

#[test]
fn allocation_holds_one_bundle_for_each_agent() {
    let mut allocation = Allocation::new();
    assert_eq!(allocation.len(), 0);
    assert!(allocation.get_bundle("Agent1").is_none());
    allocation.assign("Agent1".to_string(), bundle(&["A"]));
    allocation.assign("Agent2".to_string(), bundle(&["B"]));
    allocation.assign("Agent1".to_string(), bundle(&["C"]));
    assert_eq!(allocation.len(), 2);
    assert_eq!(allocation.assignments.len(), 2);
    assert_eq!(ids_of(allocation.get_bundle("Agent1").unwrap()), vec!["C".to_string()]);
    assert_eq!(ids_of(allocation.get_bundle("Agent2").unwrap()), vec!["B".to_string()]);
    assert!(allocation.get_bundle("Agent3").is_none());
}

#[test]
fn allocation_clone_and_default() {
    let mut allocation = Allocation::default();
    assert_eq!(allocation.len(), 0);
    allocation.assign("Agent1".to_string(), bundle(&["A", "B"]));
    allocation.assign("Agent2".to_string(), Bundle::new());
    let copy = allocation.clone();
    assert_eq!(copy.len(), 2);
    assert_eq!(
        ids_of(copy.get_bundle("Agent1").unwrap()),
        vec!["A".to_string(), "B".to_string()]
    );
    assert_eq!(copy.get_bundle("Agent2").unwrap().len(), 0);
}

#[test]
fn copies_hold_what_was_copied() {
    let key = BundleKey::from_bundle(&bundle(&["B", "A"]));
    assert!(key.clone().same_key(&key));
    assert!(key.copy_key().same_key(&key));
    assert_eq!(key.clone().good_ids(), key.good_ids());
    assert_eq!("Agent1".to_string().copy_key(), "Agent1");
    assert!("Agent1".to_string().same_key(&"Agent1".to_string()));
    assert!(!"Agent1".to_string().same_key(&"Agent2".to_string()));

    let mut agent = Agent::new("Agent1".to_string(), bundle(&["A"]));
    agent.add_preference(bundle(&["A", "B"]), 10);
    agent.add_preference(bundle(&["A"]), 5);
    let copy = agent.clone();
    assert_eq!(copy.id, "Agent1");
    assert_eq!(ids_of(&copy.endowment), vec!["A".to_string()]);
    assert_eq!(copy.preference(&bundle(&["A", "B"])), 10);
    assert_eq!(copy.preference(&bundle(&["A"])), 5);
    assert_eq!(copy.preference(&bundle(&["B"])), 0);
    assert_eq!(copy.preference_bundles().len(), 2);
    assert_eq!(ids_of(&copy.preference_bundles()[1]), vec!["A".to_string()]);

    let mut table: Table<String, i64> = Table::new();
    table.insert("A".to_string(), 1);
    table.insert("B".to_string(), 2);
    let copy = table.clone();
    assert_eq!(copy.len(), 2);
    assert_eq!(copy.get(&"A".to_string()), Some(&1));
    assert_eq!(copy.get(&"B".to_string()), Some(&2));
    assert_eq!(copy.key_at(1), "B");
}
