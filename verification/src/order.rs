//! The worst-first order every reader returns records in: the worse mood
//! first, then the higher severity, then the scope in byte order. Equals
//! keep the order they came in.

use vstd::prelude::*;
use vstd::string::*;
use crate::text::{lemma_lex_order_range, lemma_lex_order_transitive, lex_order, order_bytes};

verus! {

/// What a record is ordered by: how bad its mood is (higher is worse), its
/// severity, and its scope.
pub type Key<'a> = (u8, u8, &'a str);

/// A key as values: the scope as its bytes.
pub type KeyView = (u8, u8, Seq<u8>);

/// The values of a key.
pub open spec fn key_view(key: Key) -> KeyView {
    (key.0, key.1, key.2.spec_bytes())
}

/// The values of many keys.
pub open spec fn keys_view<'a>(keys: Seq<Key<'a>>) -> Seq<KeyView> {
    keys.map_values(|key: Key<'a>| key_view(key))
}

/// -1 when `a` stands before `b`, 0 when they stand together, 1 when `b`
/// stands before `a`.
pub open spec fn key_order(a: KeyView, b: KeyView) -> int {
    if a.0 > b.0 {
        -1
    } else if a.0 < b.0 {
        1
    } else if a.1 > b.1 {
        -1
    } else if a.1 < b.1 {
        1
    } else {
        lex_order(a.2, b.2)
    }
}

/// Whether some place in `order` holds position `x`.
pub open spec fn holds_position(order: Seq<usize>, x: int) -> bool {
    exists|i: int| 0 <= i < order.len() && #[trigger] order[i] == x
}

/// `order` lists every position of `keys` once, the worst first, and
/// positions whose keys stand together keep the order they came in.
pub open spec fn is_worst_first(keys: Seq<KeyView>, order: Seq<usize>) -> bool {
    &&& order.len() == keys.len()
    &&& forall|i: int| 0 <= i < order.len() ==> order[i] < keys.len()
    &&& forall|i: int, j: int| 0 <= i < j < order.len() ==> order[i] != order[j]
    &&& forall|x: int| 0 <= x < keys.len() ==> #[trigger] holds_position(order, x)
    &&& forall|i: int, j: int|
        #![trigger order[i], order[j]]
        0 <= i < j < order.len() ==> key_order(keys[order[i] as int], keys[order[j] as int]) <= 0
    &&& forall|i: int, j: int|
        #![trigger order[i], order[j]]
        0 <= i < j < order.len() && key_order(keys[order[i] as int], keys[order[j] as int]) == 0
            ==> order[i] < order[j]
}

/// Two keys stand one before the other exactly as they stand the other way
/// round, and they stand together only when they are the same key: equals
/// answer the same way every time.
pub proof fn lemma_key_order(a: KeyView, b: KeyView)
    ensures
        -1 <= key_order(a, b) <= 1,
        key_order(a, b) == -key_order(b, a),
        key_order(a, b) == 0 <==> a == b,
{
    lemma_lex_order_range(a.2, b.2);
}

/// What stands before a key stands before everything that key stands
/// before.
pub proof fn lemma_key_order_transitive(a: KeyView, b: KeyView, c: KeyView)
    requires
        key_order(a, b) <= 0,
        key_order(b, c) <= 0,
    ensures
        key_order(a, c) <= 0,
        key_order(a, b) < 0 || key_order(b, c) < 0 ==> key_order(a, c) < 0,
{
    lemma_key_order(a, b);
    lemma_key_order(b, c);
    lemma_key_order(a, c);
    if a.0 == b.0 && b.0 == c.0 && a.1 == b.1 && b.1 == c.1 {
        lemma_lex_order_transitive(a.2, b.2, c.2);
    }
}

/// The order of two keys.
pub(crate) fn compare_keys(a: &Key, b: &Key) -> (r: i8)
    ensures
        r == key_order(key_view(*a), key_view(*b)),
{
    if a.0 > b.0 {
        -1
    } else if a.0 < b.0 {
        1
    } else if a.1 > b.1 {
        -1
    } else if a.1 < b.1 {
        1
    } else {
        order_bytes(a.2.as_bytes(), b.2.as_bytes())
    }
}

/// The first `k` positions of `kv` in worst-first order, equals in the
/// order they came in.
pub open spec fn orders_first(kv: Seq<KeyView>, order: Seq<usize>, k: int) -> bool {
    &&& order.len() == k
    &&& forall|i: int| 0 <= i < order.len() ==> order[i] < k
    &&& forall|i: int, j: int| 0 <= i < j < order.len() ==> order[i] != order[j]
    &&& forall|x: int| 0 <= x < k ==> #[trigger] holds_position(order, x)
    &&& forall|i: int, j: int|
        #![trigger order[i], order[j]]
        0 <= i < j < order.len() ==> key_order(kv[order[i] as int], kv[order[j] as int]) <= 0
    &&& forall|i: int, j: int|
        #![trigger order[i], order[j]]
        0 <= i < j < order.len() && key_order(kv[order[i] as int], kv[order[j] as int]) == 0
            ==> order[i] < order[j]
}

/// Every position from `p` on holds a key that stands strictly after the
/// new one.
proof fn lemma_after_insert_point(kv: Seq<KeyView>, order: Seq<usize>, k: usize, p: int)
    requires
        0 <= k < kv.len(),
        orders_first(kv, order, k as int),
        0 <= p <= order.len(),
        p < order.len() ==> key_order(kv[k as int], kv[order[p] as int]) < 0,
    ensures
        forall|q: int|
            p <= q < order.len() ==> key_order(kv[k as int], kv[#[trigger] order[q] as int]) < 0,
{
    assert forall|q: int| p <= q < order.len() implies key_order(
        kv[k as int],
        kv[#[trigger] order[q] as int],
    ) < 0 by {
        let first = kv[order[p] as int];
        if q > p {
            assert(key_order(first, kv[order[q] as int]) <= 0);
            lemma_key_order_transitive(kv[k as int], first, kv[order[q] as int]);
        }
    }
}

/// Inserting a new position keeps each position once.
proof fn lemma_insert_keeps_positions(kv: Seq<KeyView>, order: Seq<usize>, k: usize, p: int)
    requires
        0 <= k < kv.len(),
        orders_first(kv, order, k as int),
        0 <= p <= order.len(),
    ensures
        ({
            let t = order.insert(p, k);
            &&& t.len() == k + 1
            &&& forall|i: int| 0 <= i < t.len() ==> t[i] < k + 1
            &&& forall|i: int, j: int| 0 <= i < j < t.len() ==> t[i] != t[j]
            &&& forall|x: int| 0 <= x < k + 1 ==> #[trigger] holds_position(t, x)
        }),
{
    let t = order.insert(p, k);
    order.insert_ensures(p, k);
    assert forall|x: int| 0 <= x < k + 1 implies #[trigger] holds_position(t, x) by {
        if x == k {
            assert(t[p] == x);
        } else {
            assert(holds_position(order, x));
            let i = choose|i: int| 0 <= i < order.len() && #[trigger] order[i] == x;
            if i < p {
                assert(t[i] == x);
            } else {
                assert(t[i + 1] == x);
            }
        }
    }
    assert forall|i: int| 0 <= i < t.len() implies t[i] < k + 1 by {
        if i < p {
            assert(t[i] == order[i]);
        } else if i > p {
            assert(t[i] == order[i - 1]);
        }
    }
    assert forall|i: int, j: int| 0 <= i < j < t.len() implies t[i] != t[j] by {
        if j < p {
            assert(t[i] == order[i] && t[j] == order[j]);
        } else if j == p {
            assert(t[i] == order[i]);
        } else if i < p {
            assert(t[i] == order[i] && t[j] == order[j - 1]);
        } else if i == p {
            assert(t[j] == order[j - 1]);
        } else {
            assert(t[i] == order[i - 1] && t[j] == order[j - 1]);
        }
    }
}

/// Inserting the new position where it belongs keeps the worst first and
/// equals in the order they came.
proof fn lemma_insert_keeps_order(kv: Seq<KeyView>, order: Seq<usize>, k: usize, p: int)
    requires
        0 <= k < kv.len(),
        orders_first(kv, order, k as int),
        0 <= p <= order.len(),
        forall|q: int| 0 <= q < p ==> key_order(kv[k as int], kv[#[trigger] order[q] as int]) >= 0,
        forall|q: int|
            p <= q < order.len() ==> key_order(kv[k as int], kv[#[trigger] order[q] as int]) < 0,
    ensures
        ({
            let t = order.insert(p, k);
            forall|i: int, j: int|
                #![trigger t[i], t[j]]
                0 <= i < j < t.len() ==> key_order(kv[t[i] as int], kv[t[j] as int]) <= 0 && (
                key_order(kv[t[i] as int], kv[t[j] as int]) == 0 ==> t[i] < t[j])
        }),
{
    let t = order.insert(p, k);
    order.insert_ensures(p, k);
    assert forall|i: int, j: int|
        #![trigger t[i], t[j]]
        0 <= i < j < t.len() implies key_order(kv[t[i] as int], kv[t[j] as int]) <= 0 && (
        key_order(kv[t[i] as int], kv[t[j] as int]) == 0 ==> t[i] < t[j]) by {
        if j < p {
            assert(t[i] == order[i] && t[j] == order[j]);
        } else if j == p {
            assert(t[i] == order[i]);
            lemma_key_order(kv[order[i] as int], kv[k as int]);
        } else if i < p {
            assert(t[i] == order[i] && t[j] == order[j - 1]);
            lemma_key_order(kv[order[i] as int], kv[k as int]);
            lemma_key_order_transitive(kv[order[i] as int], kv[k as int], kv[order[j - 1] as int]);
        } else if i == p {
            assert(t[j] == order[j - 1]);
            lemma_key_order(kv[k as int], kv[order[j - 1] as int]);
        } else {
            assert(t[i] == order[i - 1] && t[j] == order[j - 1]);
        }
    }
}

/// The positions of `keys`, worst first; equals keep the order they came
/// in.
pub(crate) fn worst_first_positions(keys: &[Key]) -> (order: Vec<usize>)
    ensures
        is_worst_first(keys_view(keys@), order@),
{
    let n = keys.len();
    let ghost kv = keys_view(keys@);
    let mut order: Vec<usize> = Vec::new();
    let mut k: usize = 0;
    while k < n
        invariant
            k <= n,
            n == keys@.len(),
            kv == keys_view(keys@),
            orders_first(kv, order@, k as int),
        decreases n - k,
    {
        // The first place whose key stands strictly after the new one.
        let mut p: usize = 0;
        while p < order.len() && compare_keys(&keys[k], &keys[order[p]]) >= 0
            invariant
                p <= order@.len(),
                k < n,
                n == keys@.len(),
                kv == keys_view(keys@),
                orders_first(kv, order@, k as int),
                forall|q: int|
                    0 <= q < p ==> key_order(kv[k as int], kv[#[trigger] order@[q] as int]) >= 0,
            decreases order@.len() - p,
        {
            p = p + 1;
        }
        proof {
            lemma_after_insert_point(kv, order@, k, p as int);
            lemma_insert_keeps_positions(kv, order@, k, p as int);
            lemma_insert_keeps_order(kv, order@, k, p as int);
        }
        order.insert(p, k);
        k = k + 1;
    }
    assert(kv.len() == n);
    assert(is_worst_first(kv, order@));
    order
}

/// The worst-first order of a list of keys is one order: two orders that
/// both list every position worst first, equals in the order they came in,
/// are the same.
pub proof fn law_worst_first_is_unique(keys: Seq<KeyView>, a: Seq<usize>, b: Seq<usize>)
    requires
        is_worst_first(keys, a),
        is_worst_first(keys, b),
    ensures
        a == b,
{
    lemma_same_before(keys, a, b, a.len() as int);
    assert(a =~= b);
}

/// Two worst-first orders of the same keys agree on their first `i`
/// places.
proof fn lemma_same_before(keys: Seq<KeyView>, a: Seq<usize>, b: Seq<usize>, i: int)
    requires
        is_worst_first(keys, a),
        is_worst_first(keys, b),
        0 <= i <= a.len(),
    ensures
        forall|k: int| 0 <= k < i ==> a[k] == b[k],
    decreases i,
{
    if i > 0 {
        let m = i - 1;
        lemma_same_before(keys, a, b, m);
        if a[m] != b[m] {
            let (x, y) = (a[m] as int, b[m] as int);
            assert(holds_position(b, x));
            let j = choose|j: int| 0 <= j < b.len() && #[trigger] b[j] == x;
            if j < m {
                assert(a[j] == x);
            }
            assert(holds_position(a, y));
            let k = choose|k: int| 0 <= k < a.len() && #[trigger] a[k] == y;
            if k < m {
                assert(b[k] == y);
            }
            assert(key_order(keys[b[m] as int], keys[b[j] as int]) <= 0);
            assert(key_order(keys[a[m] as int], keys[a[k] as int]) <= 0);
            lemma_key_order(keys[x], keys[y]);
        }
    }
}

} // verus!