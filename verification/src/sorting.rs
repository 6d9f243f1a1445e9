//! Stable sorting by integer keys.

use vstd::prelude::*;

verus! {

/// `order` with position `x` put behind the last position whose key is not
/// greater than that of `x`.
pub open spec fn insert_position(order: Seq<int>, keys: Seq<int>, x: int) -> Seq<int>
    decreases order.len(),
{
    if order.len() == 0 || keys[order.last()] <= keys[x] {
        order.push(x)
    } else {
        insert_position(order.drop_last(), keys, x).push(order.last())
    }
}

/// The positions of the first `n` keys in ascending order of their keys; those
/// with the same key stay in their order.
pub open spec fn order_of_first(keys: Seq<int>, n: int) -> Seq<int>
    decreases n,
{
    if n <= 0 {
        Seq::empty()
    } else {
        insert_position(order_of_first(keys, n - 1), keys, n - 1)
    }
}

/// The positions of keys in ascending order of their keys; those with the same
/// key stay in their order.
pub open spec fn stable_order(keys: Seq<int>) -> Seq<int> {
    order_of_first(keys, keys.len() as int)
}

/// The items in ascending order of their keys.
pub open spec fn in_stable_order<T>(items: Seq<T>, keys: Seq<int>) -> Seq<T> {
    Seq::new(items.len(), |i: int| items[stable_order(keys)[i]])
}

/// Whether positions `a` and `b` stand in the right order: by key, then by place.
pub open spec fn in_order(keys: Seq<int>, a: int, b: int) -> bool {
    keys[a] < keys[b] || (keys[a] == keys[b] && a < b)
}

/// Whether `order` lists the positions below `n`, each once, in the right order.
pub open spec fn orders_first(keys: Seq<int>, order: Seq<int>, n: int) -> bool {
    &&& order.len() == n
    &&& forall|i: int| 0 <= i < n ==> 0 <= #[trigger] order[i] < n
    &&& forall|x: int| 0 <= x < n ==> #[trigger] order.contains(x)
    &&& forall|i: int, j: int|
        0 <= i < j < n ==> in_order(keys, #[trigger] order[i], #[trigger] order[j])
}

proof fn lemma_insert_position(order: Seq<int>, keys: Seq<int>, x: int)
    requires
        forall|i: int| 0 <= i < order.len() ==> 0 <= #[trigger] order[i] < x,
        forall|i: int, j: int|
            0 <= i < j < order.len() ==> in_order(
                keys,
                #[trigger] order[i],
                #[trigger] order[j],
            ),
    ensures
        insert_position(order, keys, x).len() == order.len() + 1,
        forall|i: int|
            0 <= i < order.len() + 1 ==> 0 <= #[trigger] insert_position(order, keys, x)[i] <= x
                || x < 0,
        forall|y: int|
            #[trigger] insert_position(order, keys, x).contains(y) <==> (order.contains(y) || y
                == x),
        forall|i: int, j: int|
            0 <= i < j < order.len() + 1 ==> in_order(
                keys,
                #[trigger] insert_position(order, keys, x)[i],
                #[trigger] insert_position(order, keys, x)[j],
            ),
    decreases order.len(),
{
    let r = insert_position(order, keys, x);
    if order.len() == 0 || keys[order.last()] <= keys[x] {
        assert forall|y: int| #[trigger] r.contains(y) <==> (order.contains(y) || y == x) by {
            if order.contains(y) {
                let i = choose|i: int| 0 <= i < order.len() && order[i] == y;
                assert(r[i] == y);
            }
            if y == x {
                assert(r[order.len() as int] == y);
            }
        }
        assert forall|i: int, j: int| 0 <= i < j < r.len() implies in_order(
            keys,
            #[trigger] r[i],
            #[trigger] r[j],
        ) by {
            if j == order.len() && i < order.len() - 1 {
                assert(in_order(keys, order[i], order[order.len() - 1]));
            }
        }
    } else {
        let rest = order.drop_last();
        let sub = insert_position(rest, keys, x);
        let last = order.last();
        lemma_insert_position(rest, keys, x);
        assert forall|y: int| #[trigger] r.contains(y) <==> (order.contains(y) || y == x) by {
            if order.contains(y) {
                let i = choose|i: int| 0 <= i < order.len() && order[i] == y;
                if i < rest.len() {
                    assert(rest[i] == y);
                    assert(sub.contains(y));
                    let k = choose|k: int| 0 <= k < sub.len() && sub[k] == y;
                    assert(r[k] == y);
                } else {
                    assert(r[r.len() - 1] == y);
                }
            }
            if y == x {
                assert(sub.contains(x));
                let k = choose|k: int| 0 <= k < sub.len() && sub[k] == x;
                assert(r[k] == x);
            }
            if r.contains(y) {
                let k = choose|k: int| 0 <= k < r.len() && r[k] == y;
                if k < sub.len() {
                    assert(sub[k] == y);
                    assert(sub.contains(y));
                    if y != x {
                        assert(rest.contains(y));
                        let i = choose|i: int| 0 <= i < rest.len() && rest[i] == y;
                        assert(order[i] == y);
                    }
                } else {
                    assert(order[order.len() - 1] == y);
                }
            }
        }
        assert forall|i: int, j: int| 0 <= i < j < r.len() implies in_order(
            keys,
            #[trigger] r[i],
            #[trigger] r[j],
        ) by {
            if j < sub.len() {
                assert(in_order(keys, sub[i], sub[j]));
            } else {
                assert(sub[i] == r[i]);
                assert(sub.contains(r[i]));
                if r[i] != x {
                    assert(rest.contains(r[i]));
                    let k = choose|k: int| 0 <= k < rest.len() && rest[k] == r[i];
                    assert(in_order(keys, order[k], order[order.len() - 1]));
                }
            }
        }
    }
}

/// The stable order lists every position once, by ascending key, and positions
/// with the same key in their original order.
pub proof fn stable_order_is_sorted(keys: Seq<int>)
    ensures
        orders_first(keys, stable_order(keys), keys.len() as int),
{
    lemma_order_of_first(keys, keys.len() as int);
}

proof fn lemma_order_of_first(keys: Seq<int>, n: int)
    requires
        0 <= n <= keys.len(),
    ensures
        orders_first(keys, order_of_first(keys, n), n),
    decreases n,
{
    if n > 0 {
        lemma_order_of_first(keys, n - 1);
        let before = order_of_first(keys, n - 1);
        lemma_insert_position(before, keys, n - 1);
        assert forall|x: int| 0 <= x < n implies #[trigger] order_of_first(keys, n).contains(x) by {
            if x < n - 1 {
                assert(before.contains(x));
            }
        }
    }
}

/// Inserting is putting the position behind the last key that is not greater.
proof fn lemma_insert_at(order: Seq<int>, keys: Seq<int>, x: int, at: int)
    requires
        0 <= at <= order.len(),
        at == 0 || keys[order[at - 1]] <= keys[x],
        forall|i: int| at <= i < order.len() ==> keys[x] < keys[#[trigger] order[i]],
    ensures
        insert_position(order, keys, x) == order.insert(at, x),
    decreases order.len() - at,
{
    if at == order.len() {
        assert(order.insert(at, x) =~= order.push(x));
    } else {
        let rest = order.drop_last();
        assert(keys[x] < keys[order[order.len() - 1]]);
        assert forall|i: int| at <= i < rest.len() implies keys[x] < keys[#[trigger] rest[i]] by {
            assert(rest[i] == order[i]);
        }
        lemma_insert_at(rest, keys, x, at);
        assert(rest.insert(at, x).push(order.last()) =~= order.insert(at, x));
    }
}

/// The integer values of a list of keys.
pub open spec fn key_values(keys: Seq<i128>) -> Seq<int> {
    Seq::new(keys.len(), |i: int| keys[i] as int)
}

/// Sorts items by ascending key, keeping the order of items with the same key.
pub fn stable_sort<T>(items: Vec<T>, keys: &Vec<i128>) -> (r: Vec<T>)
    requires
        items@.len() == keys@.len(),
    ensures
        r@ == in_stable_order(items@, key_values(keys@)),
{
    let ghost all = items@;
    let ghost k = key_values(keys@);
    let mut rest = items;
    let mut out: Vec<T> = Vec::new();
    let mut out_keys: Vec<i128> = Vec::new();
    let mut n: usize = 0;
    while n < keys.len()
        invariant
            n <= keys@.len(),
            all.len() == keys@.len(),
            k == key_values(keys@),
            rest@ == all.skip(n as int),
            out@.len() == n,
            out_keys@.len() == n,
            order_of_first(k, n as int).len() == n,
            forall|i: int| 0 <= i < n ==> 0 <= #[trigger] order_of_first(k, n as int)[i] < n,
            forall|i: int| 0 <= i < n ==> #[trigger] out@[i] == all[order_of_first(k, n as int)[i]],
            forall|i: int|
                0 <= i < n ==> #[trigger] out_keys@[i] as int == k[order_of_first(k, n as int)[i]],
            forall|i: int, j: int|
                0 <= i < j < n ==> #[trigger] out_keys@[i] <= #[trigger] out_keys@[j],
        decreases keys@.len() - n,
    {
        let key: i128 = keys[n];
        let mut at: usize = n;
        while at > 0 && out_keys[at - 1] > key
            invariant
                at <= n,
                out_keys@.len() == n,
                forall|i: int| at <= i < n ==> key < #[trigger] out_keys@[i],
            decreases at,
        {
            at = at - 1;
        }
        let ghost order = order_of_first(k, n as int);
        proof {
            lemma_order_of_first(k, n as int);
            assert forall|i: int| at <= i < order.len() implies k[n as int] < k[#[trigger] order[i]] by {
                assert(out_keys@[i] as int == k[order[i]]);
            }
            if at > 0 {
                assert(out_keys@[at - 1] as int == k[order[at - 1]]);
            }
            lemma_insert_at(order, k, n as int, at as int);
        }
        let ghost prior = out@;
        let ghost prior_keys = out_keys@;
        let item = rest.remove(0);
        out.insert(at, item);
        out_keys.insert(at, key);
        proof {
            lemma_order_of_first(k, n + 1);
            let next = order_of_first(k, n + 1);
            assert(next == order.insert(at as int, n as int));
            assert(rest@ =~= all.skip(n + 1));
            assert forall|i: int| 0 <= i < n + 1 implies #[trigger] out@[i] == all[next[i]] by {
                if i < at {
                    assert(out@[i] == prior[i]);
                } else if i > at {
                    assert(out@[i] == prior[i - 1]);
                    assert(next[i] == order[i - 1]);
                }
            }
            assert forall|i: int| 0 <= i < n + 1 implies #[trigger] out_keys@[i] as int == k[next[i]] by {
                if i < at {
                    assert(out_keys@[i] == prior_keys[i]);
                } else if i > at {
                    assert(out_keys@[i] == prior_keys[i - 1]);
                    assert(next[i] == order[i - 1]);
                }
            }
            assert forall|i: int, j: int| 0 <= i < j < n + 1 implies #[trigger] out_keys@[i]
                <= #[trigger] out_keys@[j] by {
                assert(in_order(k, next[i], next[j]));
            }
        }
        n = n + 1;
    }
    assert(out@ =~= in_stable_order(all, k));
    out
}

} // verus!
