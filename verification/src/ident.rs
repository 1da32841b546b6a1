//! Identifiers and their order.
//!
//! Goods and agents are named by strings. Contracts speak of an identifier by
//! the sequence of its characters, and bundles keep their goods in the
//! ascending order defined here: character by character, by code point, a
//! proper prefix before any of its extensions.

use vstd::prelude::*;
use vstd::string::*;

verus! {

/// `a` comes strictly before `b`, given that they agree on their first `i`
/// characters.
pub open spec fn id_before_from(a: Seq<char>, b: Seq<char>, i: int) -> bool
    decreases a.len() - i,
{
    if i < 0 || i >= b.len() {
        false
    } else if i >= a.len() {
        true
    } else if a[i] != b[i] {
        (a[i] as int) < (b[i] as int)
    } else {
        id_before_from(a, b, i + 1)
    }
}

/// The strict order on identifiers.
pub open spec fn id_before(a: Seq<char>, b: Seq<char>) -> bool {
    id_before_from(a, b, 0)
}

/// A sequence of identifiers in strictly ascending order.
pub open spec fn ascending(ids: Seq<Seq<char>>) -> bool {
    forall|i: int, j: int|
        0 <= i < j < ids.len() ==> id_before(#[trigger] ids[i], #[trigger] ids[j])
}

proof fn lemma_not_before_itself_from(a: Seq<char>, i: int)
    ensures
        !id_before_from(a, a, i),
    decreases a.len() - i,
{
    if 0 <= i < a.len() {
        lemma_not_before_itself_from(a, i + 1);
    }
}

proof fn lemma_before_chain_from(a: Seq<char>, b: Seq<char>, c: Seq<char>, i: int)
    requires
        id_before_from(a, b, i),
        id_before_from(b, c, i),
    ensures
        id_before_from(a, c, i),
    decreases a.len() - i,
{
    if i < a.len() && a[i] == b[i] && b[i] == c[i] {
        lemma_before_chain_from(a, b, c, i + 1);
    }
}

proof fn lemma_neither_before_from(a: Seq<char>, b: Seq<char>, i: int)
    requires
        0 <= i <= a.len(),
        i <= b.len(),
        !id_before_from(a, b, i),
        !id_before_from(b, a, i),
    ensures
        a.len() == b.len(),
        forall|k: int| i <= k < a.len() ==> a[k] == b[k],
    decreases a.len() - i,
{
    if i < a.len() && i < b.len() {
        lemma_neither_before_from(a, b, i + 1);
    }
}

/// No identifier comes before itself.
pub proof fn lemma_id_before_irreflexive(a: Seq<char>)
    ensures
        !id_before(a, a),
{
    lemma_not_before_itself_from(a, 0);
}

/// The order on identifiers is transitive.
pub proof fn lemma_id_before_transitive(a: Seq<char>, b: Seq<char>, c: Seq<char>)
    requires
        id_before(a, b),
        id_before(b, c),
    ensures
        id_before(a, c),
{
    lemma_before_chain_from(a, b, c, 0);
}

/// Two identifiers of which neither comes before the other are the same.
pub proof fn lemma_id_before_total(a: Seq<char>, b: Seq<char>)
    requires
        !id_before(a, b),
        !id_before(b, a),
    ensures
        a == b,
{
    lemma_neither_before_from(a, b, 0);
}

/// Of two identifiers at most one comes before the other.
pub proof fn lemma_id_before_asymmetric(a: Seq<char>, b: Seq<char>)
    requires
        id_before(a, b),
    ensures
        !id_before(b, a),
{
    if id_before(b, a) {
        lemma_id_before_transitive(a, b, a);
        lemma_id_before_irreflexive(a);
    }
}

/// An ascending sequence of identifiers holds none of them twice.
pub proof fn lemma_ascending_distinct(ids: Seq<Seq<char>>)
    requires
        ascending(ids),
    ensures
        ids.no_duplicates(),
{
    assert forall|i: int, j: int| 0 <= i < ids.len() && 0 <= j < ids.len() && i != j implies ids[i]
        != ids[j] by {
        if i < j {
            lemma_id_before_irreflexive(ids[i]);
        } else {
            lemma_id_before_irreflexive(ids[j]);
        }
    }
}

/// Two ascending sequences that hold the same identifiers are equal.
pub proof fn lemma_ascending_canonical(x: Seq<Seq<char>>, y: Seq<Seq<char>>)
    requires
        ascending(x),
        ascending(y),
        x.to_set() == y.to_set(),
    ensures
        x == y,
    decreases x.len(),
{
    if x.len() == 0 {
        if y.len() > 0 {
            assert(y.to_set().contains(y[0]));
        }
    } else {
        assert(x.to_set().contains(x[0]));
        assert(y.to_set().contains(x[0]));
        let j = choose|j: int| 0 <= j < y.len() && y[j] == x[0];
        assert(y.to_set().contains(y[0]));
        assert(x.to_set().contains(y[0]));
        let i = choose|i: int| 0 <= i < x.len() && x[i] == y[0];
        if j > 0 {
            assert(id_before(y[0], y[j]));
            if i > 0 {
                assert(id_before(x[0], x[i]));
                lemma_id_before_asymmetric(y[0], y[j]);
            } else {
                lemma_id_before_irreflexive(x[0]);
            }
        }
        assert(x[0] == y[0]);
        let xs = x.drop_first();
        let ys = y.drop_first();
        assert(ascending(xs)) by {
            assert forall|a: int, b: int| 0 <= a < b < xs.len() implies id_before(
                #[trigger] xs[a],
                #[trigger] xs[b],
            ) by {
                assert(id_before(x[a + 1], x[b + 1]));
            }
        }
        assert(ascending(ys)) by {
            assert forall|a: int, b: int| 0 <= a < b < ys.len() implies id_before(
                #[trigger] ys[a],
                #[trigger] ys[b],
            ) by {
                assert(id_before(y[a + 1], y[b + 1]));
            }
        }
        assert(xs.to_set() =~= ys.to_set()) by {
            assert forall|e: Seq<char>| xs.to_set().contains(e) implies ys.to_set().contains(
                e,
            ) by {
                let a = choose|a: int| 0 <= a < xs.len() && xs[a] == e;
                assert(x[a + 1] == e);
                assert(x.to_set().contains(e));
                assert(y.to_set().contains(e));
                let b = choose|b: int| 0 <= b < y.len() && y[b] == e;
                assert(id_before(x[0], x[a + 1]));
                if b == 0 {
                    lemma_id_before_irreflexive(e);
                }
                assert(ys[b - 1] == e);
            }
            assert forall|e: Seq<char>| ys.to_set().contains(e) implies xs.to_set().contains(
                e,
            ) by {
                let b = choose|b: int| 0 <= b < ys.len() && ys[b] == e;
                assert(y[b + 1] == e);
                assert(y.to_set().contains(e));
                assert(x.to_set().contains(e));
                let a = choose|a: int| 0 <= a < x.len() && x[a] == e;
                assert(id_before(y[0], y[b + 1]));
                if a == 0 {
                    lemma_id_before_irreflexive(e);
                }
                assert(xs[a - 1] == e);
            }
        }
        lemma_ascending_canonical(xs, ys);
        assert(x =~= seq![x[0]] + xs);
        assert(y =~= seq![y[0]] + ys);
    }
}

/// Whether `a` comes strictly before `b`.
pub fn comes_before(a: &str, b: &str) -> (r: bool)
    ensures
        r == id_before(a@, b@),
{
    let la: usize = a.unicode_len();
    let lb: usize = b.unicode_len();
    let mut i: usize = 0;
    while i < la && i < lb
        invariant
            la == a@.len(),
            lb == b@.len(),
            i <= la,
            i <= lb,
            id_before(a@, b@) == id_before_from(a@, b@, i as int),
        decreases la - i,
    {
        let ca: char = a.get_char(i);
        let cb: char = b.get_char(i);
        if ca != cb {
            return ca < cb;
        }
        i = i + 1;
    }
    i < lb
}

} // verus!
