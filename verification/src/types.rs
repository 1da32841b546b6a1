//! The domain model: goods, bundles, agents and allocations.

use vstd::prelude::*;
use vstd::std_specs::cmp::PartialEqSpecImpl;
use crate::ident::{
    ascending, comes_before, id_before, lemma_ascending_canonical, lemma_ascending_distinct,
    lemma_id_before_irreflexive, lemma_id_before_total, lemma_id_before_transitive,
};
use crate::table::{lemma_take_step, Table, TableKey};

verus! {

/// A good: an identity and a name for display.
#[derive(Debug)]
pub struct Good {
    pub id: String,
    pub name: String,
}

/// What a contract sees of a good.
pub ghost struct GoodView {
    pub id: Seq<char>,
    pub name: Seq<char>,
}

impl View for Good {
    type V = GoodView;

    open spec fn view(&self) -> GoodView {
        GoodView { id: self.id@, name: self.name@ }
    }
}

/// Two goods are the same good when they have the same identifier.
impl PartialEq for Good {
    fn eq(&self, other: &Self) -> (r: bool) {
        self.id == other.id
    }
}

impl PartialEqSpecImpl for Good {
    open spec fn obeys_eq_spec() -> bool {
        true
    }

    open spec fn eq_spec(&self, other: &Self) -> bool {
        self.id@ == other.id@
    }
}

impl Eq for Good {}

impl Clone for Good {
    fn clone(&self) -> (r: Self)
        ensures
            r == *self,
    {
        Good { id: self.id.clone(), name: self.name.clone() }
    }
}

/// The identifiers of a sequence of goods, in its order.
pub open spec fn good_ids(goods: Seq<GoodView>) -> Seq<Seq<char>> {
    goods.map_values(|g: GoodView| g.id)
}

/// The identifiers of a sequence of goods, as a set.
pub open spec fn id_set(goods: Seq<GoodView>) -> Set<Seq<char>> {
    good_ids(goods).to_set()
}

/// Whether one of the goods has the identifier `id`.
pub open spec fn has_id(goods: Seq<GoodView>, id: Seq<char>) -> bool {
    exists|i: int| 0 <= i < goods.len() && (#[trigger] goods[i]).id == id
}

/// Goods in strictly ascending order of their identifiers, so none twice.
pub open spec fn well_ordered(goods: Seq<GoodView>) -> bool {
    forall|i: int, j: int|
        0 <= i < j < goods.len() ==> id_before((#[trigger] goods[i]).id, (#[trigger] goods[j]).id)
}

/// The first position at or after `i` whose good does not come before `id`.
pub open spec fn rank_from(goods: Seq<GoodView>, id: Seq<char>, i: int) -> int
    decreases goods.len() - i,
{
    if 0 <= i < goods.len() && id_before(goods[i].id, id) {
        rank_from(goods, id, i + 1)
    } else {
        i
    }
}

/// The number of leading goods that come before `id`: where a good with that
/// identifier stands, or would have to be put.
pub open spec fn rank(goods: Seq<GoodView>, id: Seq<char>) -> int {
    rank_from(goods, id, 0)
}

/// The goods with `good` added, unless one with its identifier is there.
pub open spec fn with_good(goods: Seq<GoodView>, good: GoodView) -> Seq<GoodView> {
    if has_id(goods, good.id) {
        goods
    } else {
        goods.insert(rank(goods, good.id), good)
    }
}

/// Where `rank_from` stops: every good it passed comes before `id`, and the
/// one it stopped at, if any, does not.
pub proof fn lemma_rank_from(goods: Seq<GoodView>, id: Seq<char>, i: int)
    requires
        0 <= i <= goods.len(),
    ensures
        i <= rank_from(goods, id, i) <= goods.len(),
        forall|k: int| i <= k < rank_from(goods, id, i) ==> id_before((#[trigger] goods[k]).id, id),
        rank_from(goods, id, i) < goods.len() ==> !id_before(
            goods[rank_from(goods, id, i)].id,
            id,
        ),
    decreases goods.len() - i,
{
    if i < goods.len() && id_before(goods[i].id, id) {
        lemma_rank_from(goods, id, i + 1);
    }
}

/// In ordered goods an identifier is present exactly where its rank points.
pub proof fn lemma_rank_finds(goods: Seq<GoodView>, id: Seq<char>)
    requires
        well_ordered(goods),
    ensures
        0 <= rank(goods, id) <= goods.len(),
        has_id(goods, id) <==> (rank(goods, id) < goods.len() && goods[rank(goods, id)].id == id),
{
    lemma_rank_from(goods, id, 0);
    lemma_id_before_irreflexive(id);
}

/// Adding a good keeps the goods ordered and adds its identifier to theirs.
pub proof fn lemma_with_good(goods: Seq<GoodView>, good: GoodView)
    requires
        well_ordered(goods),
    ensures
        well_ordered(with_good(goods, good)),
        id_set(with_good(goods, good)) == id_set(goods).insert(good.id),
        has_id(with_good(goods, good), good.id),
        forall|id: Seq<char>| has_id(goods, id) ==> has_id(with_good(goods, good), id),
{
    let after = with_good(goods, good);
    let r = rank(goods, good.id);
    lemma_rank_from(goods, good.id, 0);
    lemma_rank_finds(goods, good.id);
    if has_id(goods, good.id) {
        let k = choose|k: int| 0 <= k < goods.len() && (#[trigger] goods[k]).id == good.id;
        assert(good_ids(goods)[k] == good.id);
    } else {
        assert forall|i: int, j: int| 0 <= i < j < after.len() implies id_before(
            (#[trigger] after[i]).id,
            (#[trigger] after[j]).id,
        ) by {
            if i == r {
                // The goods from `r` on do not come before the new one, nor
                // have its identifier: it comes before each of them.
                let other = goods[j - 1].id;
                if id_before(other, good.id) {
                    if r < j - 1 {
                        lemma_id_before_transitive(goods[r].id, other, good.id);
                    }
                } else if !id_before(good.id, other) {
                    lemma_id_before_total(good.id, other);
                }
            }
        }
        assert(after[r] == good);
        assert forall|id: Seq<char>| has_id(goods, id) implies has_id(after, id) by {
            let k = choose|k: int| 0 <= k < goods.len() && (#[trigger] goods[k]).id == id;
            if k < r {
                assert(after[k].id == id);
            } else {
                assert(after[k + 1].id == id);
            }
        }
        assert(id_set(after) =~= id_set(goods).insert(good.id)) by {
            assert forall|id: Seq<char>| id_set(after).contains(id) implies id_set(goods).insert(
                good.id,
            ).contains(id) by {
                let k = choose|k: int| 0 <= k < good_ids(after).len() && good_ids(after)[k] == id;
                if k < r {
                    assert(good_ids(goods)[k] == id);
                } else if k > r {
                    assert(good_ids(goods)[k - 1] == id);
                }
            }
            assert forall|id: Seq<char>| id_set(goods).insert(good.id).contains(
                id,
            ) implies id_set(after).contains(id) by {
                if id == good.id {
                    assert(good_ids(after)[r] == id);
                } else {
                    let k = choose|k: int|
                        0 <= k < good_ids(goods).len() && good_ids(goods)[k] == id;
                    if k < r {
                        assert(good_ids(after)[k] == id);
                    } else {
                        assert(good_ids(after)[k + 1] == id);
                    }
                }
            }
        }
    }
}

/// Ordered goods hold no identifier twice.
pub proof fn lemma_ordered_goods_distinct(goods: Seq<GoodView>)
    requires
        well_ordered(goods),
    ensures
        good_ids(goods).no_duplicates(),
{
    lemma_ordered_ids_ascend(goods);
    lemma_ascending_distinct(good_ids(goods));
}

/// The identifiers of ordered goods ascend.
pub proof fn lemma_ordered_ids_ascend(goods: Seq<GoodView>)
    requires
        well_ordered(goods),
    ensures
        ascending(good_ids(goods)),
{
}

/// Ordered goods with the same identifiers have them in the same order.
pub proof fn lemma_same_ids(a: Seq<GoodView>, b: Seq<GoodView>)
    requires
        well_ordered(a),
        well_ordered(b),
    ensures
        (id_set(a) == id_set(b)) <==> (good_ids(a) == good_ids(b)),
{
    if id_set(a) == id_set(b) {
        lemma_ordered_ids_ascend(a);
        lemma_ordered_ids_ascend(b);
        lemma_ascending_canonical(good_ids(a), good_ids(b));
    }
}

/// What a bundle holds does not depend on the order in which its goods were
/// added: either order gives the same identifiers, in the same order.
pub proof fn lemma_insertion_order(goods: Seq<GoodView>, first: GoodView, second: GoodView)
    requires
        well_ordered(goods),
    ensures
        good_ids(with_good(with_good(goods, first), second)) == good_ids(
            with_good(with_good(goods, second), first),
        ),
{
    let one = with_good(with_good(goods, first), second);
    let other = with_good(with_good(goods, second), first);
    lemma_with_good(goods, first);
    lemma_with_good(with_good(goods, first), second);
    lemma_with_good(goods, second);
    lemma_with_good(with_good(goods, second), first);
    assert(id_set(one) =~= id_set(other));
    lemma_same_ids(one, other);
}

/// In ordered goods, the good at position `j` is not among those before it.
pub proof fn lemma_take_has_id(goods: Seq<GoodView>, j: int)
    requires
        well_ordered(goods),
        0 <= j < goods.len(),
    ensures
        !has_id(goods.take(j), goods[j].id),
{
    lemma_id_before_irreflexive(goods[j].id);
}

/// The identifiers among the first `j + 1` goods are those among the first
/// `j` and that of the good at position `j`.
pub proof fn lemma_take_step_has_id(goods: Seq<GoodView>, j: int, id: Seq<char>)
    requires
        0 <= j < goods.len(),
    ensures
        has_id(goods.take(j + 1), id) <==> (has_id(goods.take(j), id) || id == goods[j].id),
{
    assert(goods.take(j + 1)[j] == goods[j]);
}

/// A finite set of goods, no two with the same identifier.
#[derive(Debug)]
pub struct Bundle {
    goods: Vec<Good>,
}

impl View for Bundle {
    type V = Seq<GoodView>;

    closed spec fn view(&self) -> Seq<GoodView> {
        self.goods@.map_values(|g: Good| g@)
    }
}

impl Bundle {
    /// A bundle keeps its goods in ascending order of identifier.
    #[verifier::type_invariant]
    pub open spec fn wf(self) -> bool {
        well_ordered(self@)
    }

    /// The empty bundle.
    pub fn new() -> (r: Self)
        ensures
            r@ == Seq::<GoodView>::empty(),
    {
        Bundle { goods: Vec::new() }
    }

    /// The number of goods.
    pub fn len(&self) -> (r: usize)
        ensures
            r == self@.len(),
    {
        self.goods.len()
    }

    /// The goods, in ascending order of identifier.
    pub fn goods(&self) -> (r: &Vec<Good>)
        ensures
            r@.map_values(|g: Good| g@) == self@,
            r@.len() == self@.len(),
            well_ordered(self@),
    {
        proof {
            use_type_invariant(self);
        }
        &self.goods
    }

    /// Adds `good`. A bundle that holds a good with its identifier stays as it
    /// is, and the answer is `false`.
    pub fn insert(&mut self, good: Good) -> (added: bool)
        ensures
            final(self)@ == with_good(old(self)@, good@),
            added == !has_id(old(self)@, good@.id),
    {
        proof {
            use_type_invariant(&*self);
            lemma_rank_from(self@, good@.id, 0);
            lemma_rank_finds(self@, good@.id);
            lemma_with_good(self@, good@);
        }
        let n: usize = self.goods.len();
        let mut i: usize = 0;
        while i < n && comes_before(self.goods[i].id.as_str(), good.id.as_str())
            invariant
                n == self.goods.len(),
                i <= n,
                self@ == old(self)@,
                rank(self@, good@.id) == rank_from(self@, good@.id, i as int),
            decreases n - i,
        {
            i = i + 1;
        }
        if i < n && self.goods[i].id == good.id {
            false
        } else {
            let ghost before = self@;
            let ghost added_view = good@;
            let mut goods: Vec<Good> = Vec::new();
            std::mem::swap(&mut goods, &mut self.goods);
            goods.insert(i, good);
            assert(goods@.map_values(|g: Good| g@) =~= before.insert(i as int, added_view));
            self.goods = goods;
            true
        }
    }

    /// Whether the bundle holds a good with the identifier of `good`.
    pub fn contains(&self, good: &Good) -> (r: bool)
        ensures
            r == has_id(self@, good@.id),
    {
        self.contains_id(good.id.as_str())
    }

    /// Whether the bundle holds a good with the identifier `id`.
    pub fn contains_id(&self, id: &str) -> (r: bool)
        ensures
            r == has_id(self@, id@),
    {
        let wanted: String = id.to_owned();
        let n: usize = self.goods.len();
        let mut i: usize = 0;
        while i < n
            invariant
                n == self.goods.len(),
                i <= n,
                wanted@ == id@,
                forall|k: int| 0 <= k < i ==> (#[trigger] self@[k]).id != id@,
            decreases n - i,
        {
            if self.goods[i].id == wanted {
                assert(self@[i as int].id == id@);
                return true;
            }
            i = i + 1;
        }
        false
    }

    /// Whether the two bundles hold the same identifiers.
    pub fn same_goods(&self, other: &Bundle) -> (r: bool)
        ensures
            r == (id_set(self@) == id_set(other@)),
    {
        proof {
            use_type_invariant(self);
            use_type_invariant(other);
            lemma_same_ids(self@, other@);
        }
        let n: usize = self.goods.len();
        if other.goods.len() != n {
            assert(good_ids(self@).len() != good_ids(other@).len());
            return false;
        }
        let mut i: usize = 0;
        while i < n
            invariant
                n == self.goods.len(),
                n == other.goods.len(),
                i <= n,
                (id_set(self@) == id_set(other@)) <==> (good_ids(self@) == good_ids(other@)),
                forall|k: int| 0 <= k < i ==> (#[trigger] self@[k]).id == other@[k].id,
            decreases n - i,
        {
            if self.goods[i].id != other.goods[i].id {
                assert(good_ids(other@)[i as int] == other@[i as int].id);
                return false;
            }
            i = i + 1;
        }
        assert(good_ids(self@) =~= good_ids(other@));
        true
    }
}

impl Clone for Bundle {
    fn clone(&self) -> (r: Self)
        ensures
            r@ == self@,
    {
        proof {
            use_type_invariant(self);
        }
        let n: usize = self.goods.len();
        let mut goods: Vec<Good> = Vec::new();
        let mut i: usize = 0;
        while i < n
            invariant
                n == self.goods.len(),
                i <= n,
                goods.len() == i,
                forall|k: int| 0 <= k < i ==> goods[k] == self.goods[k],
            decreases n - i,
        {
            goods.push(self.goods[i].clone());
            i = i + 1;
        }
        assert(goods@ =~= self.goods@);
        Bundle { goods }
    }
}

/// The canonical key of a bundle: its identifiers in ascending order.
#[derive(Debug)]
pub struct BundleKey {
    good_ids: Vec<String>,
}

impl View for BundleKey {
    type V = Seq<Seq<char>>;

    closed spec fn view(&self) -> Seq<Seq<char>> {
        self.good_ids@.map_values(|s: String| s@)
    }
}

impl BundleKey {
    /// The identifiers of a key ascend.
    #[verifier::type_invariant]
    pub open spec fn wf(self) -> bool {
        ascending(self@)
    }

    /// The key of `bundle`.
    pub fn from_bundle(bundle: &Bundle) -> (r: Self)
        ensures
            r@ == good_ids(bundle@),
            ascending(r@),
    {
        proof {
            use_type_invariant(bundle);
        }
        let n: usize = bundle.goods.len();
        let mut good_ids: Vec<String> = Vec::new();
        let mut i: usize = 0;
        while i < n
            invariant
                n == bundle.goods.len(),
                i <= n,
                good_ids.len() == i,
                forall|k: int| 0 <= k < i ==> (#[trigger] good_ids[k])@ == bundle@[k].id,
            decreases n - i,
        {
            good_ids.push(bundle.goods[i].id.clone());
            i = i + 1;
        }
        proof {
            lemma_ordered_ids_ascend(bundle@);
        }
        BundleKey { good_ids }
    }

    /// The identifiers of the key, in ascending order.
    pub fn good_ids(&self) -> (r: &Vec<String>)
        ensures
            r@.map_values(|s: String| s@) == self@,
            r@.len() == self@.len(),
            ascending(self@),
    {
        proof {
            use_type_invariant(self);
        }
        &self.good_ids
    }
}

impl Clone for BundleKey {
    fn clone(&self) -> (r: Self)
        ensures
            r@ == self@,
    {
        proof {
            use_type_invariant(self);
        }
        let n: usize = self.good_ids.len();
        let mut good_ids: Vec<String> = Vec::new();
        let mut i: usize = 0;
        while i < n
            invariant
                n == self.good_ids.len(),
                i <= n,
                good_ids.len() == i,
                forall|k: int| 0 <= k < i ==> good_ids[k] == self.good_ids[k],
            decreases n - i,
        {
            good_ids.push(self.good_ids[i].clone());
            i = i + 1;
        }
        assert(good_ids@ =~= self.good_ids@);
        BundleKey { good_ids }
    }
}

impl TableKey for BundleKey {
    fn copy_key(&self) -> (r: Self) {
        self.clone()
    }

    fn same_key(&self, other: &Self) -> (r: bool) {
        let n: usize = self.good_ids.len();
        if other.good_ids.len() != n {
            assert(self@.len() != other@.len());
            return false;
        }
        let mut i: usize = 0;
        while i < n
            invariant
                n == self.good_ids.len(),
                n == other.good_ids.len(),
                i <= n,
                forall|k: int| 0 <= k < i ==> self@[k] == other@[k],
            decreases n - i,
        {
            if self.good_ids[i] != other.good_ids[i] {
                assert(self@[i as int] != other@[i as int]);
                return false;
            }
            i = i + 1;
        }
        assert(self@ =~= other@);
        true
    }
}

/// What an agent has said of bundles: a value for each bundle that was
/// registered, and the registered bundles in the order in which they came.
#[derive(Debug)]
pub struct Catalog {
    values: Table<BundleKey, i64>,
    bundles: Vec<Bundle>,
}

/// What a contract sees of a catalog.
pub ghost struct CatalogView {
    /// The value of each registered bundle, by its identifiers in ascending order.
    pub values: Map<Seq<Seq<char>>, i64>,
    /// The registered bundles, in the order of registration.
    pub bundles: Seq<Seq<GoodView>>,
}

impl View for Catalog {
    type V = CatalogView;

    closed spec fn view(&self) -> CatalogView {
        CatalogView { values: self.values@, bundles: self.bundles@.map_values(|b: Bundle| b@) }
    }
}

impl Catalog {
    /// The empty catalog.
    pub fn new() -> (r: Self)
        ensures
            r@ == (CatalogView {
                values: Map::<Seq<Seq<char>>, i64>::empty(),
                bundles: Seq::<Seq<GoodView>>::empty(),
            }),
    {
        let r = Catalog { values: Table::new(), bundles: Vec::new() };
        assert(r@.bundles =~= Seq::<Seq<GoodView>>::empty());
        r
    }

    /// Registers `bundle` with the value `value`. A value registered before
    /// for the same identifiers is replaced; the bundle is listed once more.
    pub fn register(&mut self, bundle: Bundle, value: i64)
        ensures
            final(self)@ == (CatalogView {
                values: old(self)@.values.insert(good_ids(bundle@), value),
                bundles: old(self)@.bundles.push(bundle@),
            }),
    {
        let key = BundleKey::from_bundle(&bundle);
        let ghost listed = self@.bundles;
        let ghost b = bundle@;
        self.values.insert(key, value);
        self.bundles.push(bundle);
        assert(self@.bundles =~= listed.push(b));
    }

    /// The value registered for the identifiers of `bundle`, if there is one.
    pub fn value_of(&self, bundle: &Bundle) -> (r: Option<i64>)
        ensures
            r == (if self@.values.contains_key(good_ids(bundle@)) {
                Some(self@.values[good_ids(bundle@)])
            } else {
                None
            }),
    {
        let key = BundleKey::from_bundle(bundle);
        match self.values.get(&key) {
            Some(v) => Some(*v),
            None => None,
        }
    }

    /// The registered bundles, in the order of registration.
    pub fn bundles(&self) -> (r: &[Bundle])
        ensures
            r@.map_values(|b: Bundle| b@) == self@.bundles,
            r@.len() == self@.bundles.len(),
    {
        self.bundles.as_slice()
    }
}

impl Clone for Catalog {
    fn clone(&self) -> (r: Self)
        ensures
            r@ == self@,
    {
        let n: usize = self.bundles.len();
        let mut bundles: Vec<Bundle> = Vec::new();
        let mut i: usize = 0;
        while i < n
            invariant
                n == self.bundles.len(),
                i <= n,
                bundles.len() == i,
                forall|k: int| 0 <= k < i ==> (#[trigger] bundles[k])@ == self.bundles[k]@,
            decreases n - i,
        {
            bundles.push(self.bundles[i].clone());
            i = i + 1;
        }
        let r = Catalog { values: self.values.clone(), bundles };
        assert(r@.bundles =~= self@.bundles);
        r
    }
}

/// An agent: an identity, an endowment, and a catalog of the bundles that it
/// has a value for. Every other bundle is worth nothing to it.
#[derive(Debug)]
pub struct Agent {
    pub id: String,
    /// The goods that the agent starts with.
    pub endowment: Bundle,
    /// The bundles that the agent has registered, with their values.
    pub catalog: Catalog,
}

/// What a contract sees of an agent.
pub ghost struct AgentView {
    pub id: Seq<char>,
    pub endowment: Seq<GoodView>,
    /// The value of each registered bundle, by its identifiers in ascending order.
    pub values: Map<Seq<Seq<char>>, i64>,
    /// The registered bundles, in the order of registration.
    pub bundles: Seq<Seq<GoodView>>,
}

impl AgentView {
    /// The value of `bundle` to the agent: what was registered for its
    /// identifiers, and 0 where nothing was.
    pub open spec fn preference(self, bundle: Seq<GoodView>) -> int {
        if self.values.contains_key(good_ids(bundle)) {
            self.values[good_ids(bundle)] as int
        } else {
            0
        }
    }

    /// Strict preference; equal values are indifference.
    pub open spec fn prefers(self, first: Seq<GoodView>, second: Seq<GoodView>) -> bool {
        self.preference(first) > self.preference(second)
    }
}

/// An agent values a bundle by the set of its identifiers alone.
pub proof fn lemma_preference_by_ids(agent: AgentView, first: Seq<GoodView>, second: Seq<GoodView>)
    requires
        well_ordered(first),
        well_ordered(second),
        id_set(first) == id_set(second),
    ensures
        agent.preference(first) == agent.preference(second),
        forall|other: Seq<GoodView>|
            agent.prefers(first, other) == agent.prefers(second, other) && agent.prefers(
                other,
                first,
            ) == agent.prefers(other, second),
{
    lemma_same_ids(first, second);
}

impl View for Agent {
    type V = AgentView;

    open spec fn view(&self) -> AgentView {
        AgentView {
            id: self.id@,
            endowment: self.endowment@,
            values: self.catalog@.values,
            bundles: self.catalog@.bundles,
        }
    }
}

impl Agent {
    /// An agent without preferences.
    pub fn new(id: String, endowment: Bundle) -> (r: Self)
        ensures
            r@ == (AgentView {
                id: id@,
                endowment: endowment@,
                values: Map::<Seq<Seq<char>>, i64>::empty(),
                bundles: Seq::<Seq<GoodView>>::empty(),
            }),
    {
        Agent { id, endowment, catalog: Catalog::new() }
    }

    /// Registers `bundle` with the value `value`. A value registered before
    /// for the same identifiers is replaced; the bundle is listed once more.
    pub fn add_preference(&mut self, bundle: Bundle, value: i64)
        ensures
            final(self)@ == (AgentView {
                values: old(self)@.values.insert(good_ids(bundle@), value),
                bundles: old(self)@.bundles.push(bundle@),
                ..old(self)@
            }),
    {
        self.catalog.register(bundle, value);
    }

    /// The value of `bundle` to the agent; 0 where none was registered.
    pub fn preference(&self, bundle: &Bundle) -> (r: i64)
        ensures
            r == self@.preference(bundle@),
    {
        match self.catalog.value_of(bundle) {
            Some(v) => v,
            None => 0,
        }
    }

    /// Whether the agent strictly prefers `bundle1` to `bundle2`.
    pub fn prefers(&self, bundle1: &Bundle, bundle2: &Bundle) -> (r: bool)
        ensures
            r == self@.prefers(bundle1@, bundle2@),
    {
        self.preference(bundle1) > self.preference(bundle2)
    }

    /// The registered bundles, in the order of registration.
    pub fn preference_bundles(&self) -> (r: &[Bundle])
        ensures
            r@.map_values(|b: Bundle| b@) == self@.bundles,
            r@.len() == self@.bundles.len(),
    {
        self.catalog.bundles()
    }
}

impl Clone for Agent {
    fn clone(&self) -> (r: Self)
        ensures
            r@ == self@,
    {
        Agent {
            id: self.id.clone(),
            endowment: self.endowment.clone(),
            catalog: self.catalog.clone(),
        }
    }
}

/// Which bundle each agent holds, by the agent's identifier.
#[derive(Debug)]
pub struct Allocation {
    pub assignments: Table<String, Bundle>,
}

impl View for Allocation {
    type V = Map<Seq<char>, Seq<GoodView>>;

    open spec fn view(&self) -> Map<Seq<char>, Seq<GoodView>> {
        Map::new(
            |id: Seq<char>| self.assignments@.contains_key(id),
            |id: Seq<char>| self.assignments@[id]@,
        )
    }
}

impl Allocation {
    /// The allocation that gives nobody anything.
    pub fn new() -> (r: Self)
        ensures
            r@ == Map::<Seq<char>, Seq<GoodView>>::empty(),
            r.assignments@ == Map::<Seq<char>, Bundle>::empty(),
    {
        Allocation { assignments: Table::new() }
    }

    /// Gives `bundle` to the agent `agent_id`, in place of what it held.
    pub fn assign(&mut self, agent_id: String, bundle: Bundle)
        ensures
            final(self)@ == old(self)@.insert(agent_id@, bundle@),
            final(self).assignments@ == old(self).assignments@.insert(agent_id@, bundle),
    {
        self.assignments.insert(agent_id, bundle);
    }

    /// What the agent `agent_id` holds, if it holds anything.
    pub fn get_bundle(&self, agent_id: &str) -> (r: Option<&Bundle>)
        ensures
            match r {
                Some(b) => self@.contains_key(agent_id@) && b@ == self@[agent_id@],
                None => !self@.contains_key(agent_id@),
            },
    {
        let key: String = agent_id.to_owned();
        self.assignments.get(&key)
    }

    /// The number of agents that hold a bundle.
    pub fn len(&self) -> (r: usize)
        ensures
            self@.dom().finite(),
            r == self@.dom().len(),
    {
        let r = self.assignments.len();
        assert(self@.dom() =~= self.assignments@.dom());
        r
    }
}

impl Default for Allocation {
    fn default() -> (r: Self)
        ensures
            r@ == Map::<Seq<char>, Seq<GoodView>>::empty(),
    {
        Allocation::new()
    }
}

impl Clone for Allocation {
    fn clone(&self) -> (r: Self)
        ensures
            r@ == self@,
    {
        let n: usize = self.assignments.len();
        let mut r = Allocation::new();
        let mut i: usize = 0;
        while i < n
            invariant
                n == self.assignments.keys().len(),
                self.assignments.wf(),
                i <= n,
                forall|id: Seq<char>|
                    r@.contains_key(id) <==> self.assignments.keys().take(i as int).contains(id),
                forall|id: Seq<char>| r@.contains_key(id) ==> r@[id] == self@[id],
            decreases n - i,
        {
            let id: String = self.assignments.key_at(i).clone();
            let bundle: Bundle = self.assignments.value_at(i).clone();
            let ghost keys = self.assignments.keys();
            r.assign(id, bundle);
            assert forall|q: Seq<char>| r@.contains_key(q) <==> keys.take(i as int + 1).contains(
                q,
            ) by {
                lemma_take_step(keys, i as int, q);
            }
            i = i + 1;
        }
        assert(self.assignments.keys().take(n as int) =~= self.assignments.keys());
        r
    }
}

/// What a run of the auction found.
#[derive(Debug)]
pub struct AuctionResult {
    /// Which bundle each agent holds.
    pub allocation: Allocation,
    /// The price of each good that has one.
    pub prices: Table<String, i64>,
    /// The sum, over the agents that hold a bundle, of what it is worth to them.
    pub total_welfare: i128,
    pub is_feasible: bool,
    pub is_individually_rational: bool,
    pub is_ordinal_efficient: bool,
}

impl Clone for AuctionResult {
    fn clone(&self) -> (r: Self)
        ensures
            r.allocation@ == self.allocation@,
            r.prices@ == self.prices@,
            r.total_welfare == self.total_welfare,
            r.is_feasible == self.is_feasible,
            r.is_individually_rational == self.is_individually_rational,
            r.is_ordinal_efficient == self.is_ordinal_efficient,
    {
        AuctionResult {
            allocation: self.allocation.clone(),
            prices: self.prices.clone(),
            total_welfare: self.total_welfare,
            is_feasible: self.is_feasible,
            is_individually_rational: self.is_individually_rational,
            is_ordinal_efficient: self.is_ordinal_efficient,
        }
    }
}

} // verus!
