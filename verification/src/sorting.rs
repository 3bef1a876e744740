//! Stable sorting by name.
//!
//! A sort is described by the order in which it visits the positions of its
//! input: `sorted_order(keys)[k]` is the position of the item that comes
//! `k`-th. The order is the one that a stable insertion sort produces, so
//! items with equal names keep the order they came in.

use crate::text::{
    chars_le, lemma_name_le_antisym, lemma_name_le_refl, lemma_name_le_total, lemma_name_le_trans,
    name_le, views,
};
use vstd::prelude::*;

verus! {

/// `order`, which lists positions of `keys` sorted by name, with position `i`
/// put behind every position whose name is not greater.
pub open spec fn insert_position(keys: Seq<Seq<char>>, order: Seq<int>, i: int) -> Seq<int>
    decreases order.len(),
{
    if order.len() == 0 {
        seq![i]
    } else if name_le(keys[order.last()], keys[i]) {
        order.push(i)
    } else {
        insert_position(keys, order.drop_last(), i).push(order.last())
    }
}

/// The positions `0..n` of `keys`, stably sorted by the names they hold.
pub open spec fn sort_order(keys: Seq<Seq<char>>, n: int) -> Seq<int>
    decreases n,
{
    if n <= 0 {
        Seq::empty()
    } else {
        insert_position(keys, sort_order(keys, n - 1), n - 1)
    }
}

/// The positions of `keys`, stably sorted by the names they hold.
pub open spec fn sorted_order(keys: Seq<Seq<char>>) -> Seq<int> {
    sort_order(keys, keys.len() as int)
}

/// The items of `items` in the order that `order` lists their positions.
pub open spec fn arrange<T>(items: Seq<T>, order: Seq<int>) -> Seq<T> {
    Seq::new(order.len(), |k: int| items[order[k]])
}

/// Position `i` belongs in front of position `j`: its name is smaller, or
/// the names are equal and `i` came first.
pub open spec fn comes_before(keys: Seq<Seq<char>>, i: int, j: int) -> bool {
    &&& name_le(keys[i], keys[j])
    &&& name_le(keys[j], keys[i]) ==> i < j
}

/// `order` lists each of the positions `0..n` once, every one in front of
/// those that belong behind it.
pub open spec fn is_stable_order(keys: Seq<Seq<char>>, order: Seq<int>, n: int) -> bool {
    &&& order.len() == n
    &&& forall|k: int| 0 <= k < order.len() ==> 0 <= #[trigger] order[k] < n
    &&& forall|i: int| 0 <= i < n ==> order.contains(i)
    &&& forall|p: int, q: int|
        0 <= p < q < order.len() ==> comes_before(keys, #[trigger] order[p], #[trigger] order[q])
}

/// The positions of `s` as mathematical integers.
pub open spec fn as_ints(s: Seq<usize>) -> Seq<int> {
    s.map_values(|x: usize| x as int)
}

/// What inserting does to a sorted run that need not hold every position.
proof fn lemma_insert_front(keys: Seq<Seq<char>>, front: Seq<int>, i: int)
    requires
        0 <= i < keys.len(),
        forall|k: int| 0 <= k < front.len() ==> 0 <= #[trigger] front[k] < i,
        forall|p: int, q: int|
            0 <= p < q < front.len() ==> comes_before(
                keys,
                #[trigger] front[p],
                #[trigger] front[q],
            ),
    ensures
        insert_position(keys, front, i).len() == front.len() + 1,
        insert_position(keys, front, i).contains(i),
        forall|k: int|
            0 <= k < front.len() ==> insert_position(keys, front, i).contains(#[trigger] front[k]),
        forall|k: int|
            0 <= k < front.len() + 1 ==> {
                ||| #[trigger] insert_position(keys, front, i)[k] == i
                ||| front.contains(insert_position(keys, front, i)[k])
            },
        forall|p: int, q: int|
            0 <= p < q < front.len() + 1 ==> comes_before(
                keys,
                #[trigger] insert_position(keys, front, i)[p],
                #[trigger] insert_position(keys, front, i)[q],
            ),
    decreases front.len(),
{
    let r = insert_position(keys, front, i);
    if front.len() == 0 {
        assert(r[0] == i);
    } else if name_le(keys[front.last()], keys[i]) {
        assert(r[front.len() as int] == i);
        assert forall|k: int| 0 <= k < front.len() implies r.contains(#[trigger] front[k]) by {
            assert(r[k] == front[k]);
        }
        assert forall|k: int| 0 <= k < front.len() + 1 implies r[k] == i || front.contains(
            #[trigger] r[k],
        ) by {
            if k < front.len() {
                assert(front[k] == r[k]);
            }
        }
        assert forall|p: int, q: int| 0 <= p < q < front.len() + 1 implies comes_before(
            keys,
            #[trigger] r[p],
            #[trigger] r[q],
        ) by {
            if q == front.len() {
                if p < front.len() - 1 {
                    assert(comes_before(keys, front[p], front[front.len() - 1]));
                    lemma_name_le_trans(keys[front[p]], keys[front.last()], keys[i]);
                }
            } else {
                assert(comes_before(keys, front[p], front[q]));
            }
        }
    } else {
        let last = front.last();
        let shorter = front.drop_last();
        assert forall|p: int, q: int| 0 <= p < q < shorter.len() implies comes_before(
            keys,
            #[trigger] shorter[p],
            #[trigger] shorter[q],
        ) by {
            assert(comes_before(keys, front[p], front[q]));
        }
        lemma_insert_front(keys, shorter, i);
        let rs = insert_position(keys, shorter, i);
        assert(r == rs.push(last));
        lemma_name_le_total(keys[last], keys[i]);
        let at = choose|k: int| 0 <= k < rs.len() && rs[k] == i;
        assert(r[at] == i);
        assert forall|k: int| 0 <= k < front.len() implies r.contains(#[trigger] front[k]) by {
            if k == front.len() - 1 {
                assert(r[rs.len() as int] == front[k]);
            } else {
                assert(shorter[k] == front[k]);
                assert(rs.contains(shorter[k]));
                let w = choose|w: int| 0 <= w < rs.len() && rs[w] == front[k];
                assert(r[w] == front[k]);
            }
        }
        assert forall|k: int| 0 <= k < front.len() + 1 implies r[k] == i || front.contains(
            #[trigger] r[k],
        ) by {
            if k < rs.len() {
                assert(r[k] == rs[k]);
                if rs[k] != i {
                    assert(shorter.contains(rs[k]));
                    let w = choose|w: int| 0 <= w < shorter.len() && shorter[w] == rs[k];
                    assert(front[w] == rs[k]);
                }
            } else {
                assert(front[front.len() - 1] == r[k]);
            }
        }
        assert forall|p: int, q: int| 0 <= p < q < front.len() + 1 implies comes_before(
            keys,
            #[trigger] r[p],
            #[trigger] r[q],
        ) by {
            if q == rs.len() {
                assert(r[p] == rs[p]);
                if rs[p] != i {
                    assert(shorter.contains(rs[p]));
                    let w = choose|w: int| 0 <= w < shorter.len() && shorter[w] == rs[p];
                    assert(comes_before(keys, front[w], front[front.len() - 1]));
                }
            } else {
                assert(r[p] == rs[p] && r[q] == rs[q]);
            }
        }
    }
}

/// The order that the sort produces lists every position once, sorted by
/// name, and keeps positions with equal names in the order they came in.
pub proof fn lemma_sort_order_stable(keys: Seq<Seq<char>>, n: int)
    requires
        0 <= n <= keys.len(),
    ensures
        is_stable_order(keys, sort_order(keys, n), n),
    decreases n,
{
    if n > 0 {
        lemma_sort_order_stable(keys, n - 1);
        let prev = sort_order(keys, n - 1);
        lemma_insert_front(keys, prev, n - 1);
        let r = insert_position(keys, prev, n - 1);
        assert forall|k: int| 0 <= k < r.len() implies 0 <= #[trigger] r[k] < n by {
            if r[k] != n - 1 {
                assert(prev.contains(r[k]));
            }
        }
        assert forall|i: int| 0 <= i < n implies r.contains(i) by {
            if i < n - 1 {
                assert(prev.contains(i));
                let w = choose|w: int| 0 <= w < prev.len() && prev[w] == i;
                assert(r.contains(prev[w]));
            }
        }
    }
}

/// Where position `i` lands: behind the last position whose name is not
/// greater than its own.
proof fn lemma_insert_at(keys: Seq<Seq<char>>, order: Seq<int>, i: int, p: int)
    requires
        0 <= p <= order.len(),
        forall|k: int| p <= k < order.len() ==> !name_le(keys[#[trigger] order[k]], keys[i]),
        p > 0 ==> name_le(keys[order[p - 1]], keys[i]),
    ensures
        insert_position(keys, order, i) == order.insert(p, i),
    decreases order.len() - p,
{
    if order.len() == 0 {
        assert(order.insert(p, i) =~= seq![i]);
    } else if p == order.len() {
        assert(order.insert(p, i) =~= order.push(i));
    } else {
        let front = order.drop_last();
        assert(!name_le(keys[order[order.len() - 1]], keys[i]));
        assert forall|k: int| p <= k < front.len() implies !name_le(
            keys[#[trigger] front[k]],
            keys[i],
        ) by {
            assert(front[k] == order[k]);
        }
        lemma_insert_at(keys, front, i, p);
        assert(front.insert(p, i).push(order.last()) =~= order.insert(p, i));
    }
}

/// The positions of `keys`, stably sorted by the names they hold.
pub fn stable_order(keys: &Vec<Vec<char>>) -> (order: Vec<usize>)
    ensures
        as_ints(order@) == sorted_order(views(keys@)),
        is_stable_order(views(keys@), as_ints(order@), keys@.len() as int),
{
    let ghost names = views(keys@);
    let mut order: Vec<usize> = Vec::new();
    let mut i: usize = 0;
    assert(as_ints(order@) =~= sort_order(names, 0));
    while i < keys.len()
        invariant
            i <= keys.len(),
            names == views(keys@),
            as_ints(order@) == sort_order(names, i as int),
        decreases keys.len() - i,
    {
        proof {
            lemma_sort_order_stable(names, i as int);
        }
        let ghost before = as_ints(order@);
        assert forall|k: int| 0 <= k < order.len() implies #[trigger] order@[k] < keys.len() by {
            assert(before[k] == order@[k] as int);
        }
        let mut p: usize = order.len();
        while p > 0 && !chars_le(&keys[order[p - 1]], &keys[i])
            invariant
                p <= order.len(),
                i < keys.len(),
                names == views(keys@),
                before == as_ints(order@),
                is_stable_order(names, before, i as int),
                forall|k: int| 0 <= k < order.len() ==> #[trigger] order@[k] < keys.len(),
                forall|k: int|
                    p <= k < order.len() ==> !name_le(names[#[trigger] before[k]], names[i as int]),
            decreases p,
        {
            proof {
                assert(before[p - 1] == order@[p - 1] as int);
            }
            p -= 1;
        }
        proof {
            if p > 0 {
                assert(before[p - 1] == order@[p - 1] as int);
            }
            lemma_insert_at(names, before, i as int, p as int);
        }
        order.insert(p, i);
        assert(as_ints(order@) =~= before.insert(p as int, i as int));
        i += 1;
    }
    proof {
        lemma_sort_order_stable(names, keys@.len() as int);
    }
    order
}

/// The items stand in the order of their names, and no two share a name.
pub open spec fn strictly_sorted<T>(items: Seq<T>, key: spec_fn(T) -> Seq<char>) -> bool {
    forall|p: int, q: int|
        0 <= p < q < items.len() ==> name_le(key(#[trigger] items[p]), key(#[trigger] items[q]))
            && key(items[p]) != key(items[q])
}

/// No two of the items share a name.
pub open spec fn distinct_names<T>(items: Seq<T>, key: spec_fn(T) -> Seq<char>) -> bool {
    forall|p: int, q: int|
        0 <= p < q < items.len() ==> key(#[trigger] items[p]) != key(#[trigger] items[q])
}

/// The two runs hold the same items.
pub open spec fn same_items<T>(x: Seq<T>, y: Seq<T>) -> bool {
    forall|e: T| x.contains(e) <==> y.contains(e)
}

/// Two runs that hold the same items, each in the order of the names and
/// without a name twice, are the same run.
pub proof fn lemma_strictly_sorted_unique<T>(x: Seq<T>, y: Seq<T>, key: spec_fn(T) -> Seq<char>)
    requires
        strictly_sorted(x, key),
        strictly_sorted(y, key),
        same_items(x, y),
    ensures
        x == y,
    decreases x.len(),
{
    if x.len() == 0 {
        if y.len() > 0 {
            assert(y.contains(y[0]));
        }
        assert(x =~= y);
    } else {
        let xl = x.len() - 1;
        assert(x.contains(x[xl]));
        assert(y.contains(x[xl]));
        let j = choose|j: int| 0 <= j < y.len() && y[j] == x[xl];
        let yl = y.len() - 1;
        assert(y.contains(y[yl]));
        assert(x.contains(y[yl]));
        let i = choose|i: int| 0 <= i < x.len() && x[i] == y[yl];
        if i < xl {
            assert(name_le(key(x[i]), key(x[xl])));
        } else {
            lemma_name_le_refl(key(x[xl]));
        }
        if j < yl {
            assert(name_le(key(y[j]), key(y[yl])));
        } else {
            lemma_name_le_refl(key(y[yl]));
        }
        lemma_name_le_antisym(key(x[xl]), key(y[yl]));
        assert(i == xl);
        assert(j == yl);
        let xs = x.drop_last();
        let ys = y.drop_last();
        assert forall|e: T| xs.contains(e) <==> ys.contains(e) by {
            if xs.contains(e) {
                let p = choose|p: int| 0 <= p < xs.len() && xs[p] == e;
                assert(x[p] == e);
                assert(x.contains(e));
                let k = choose|k: int| 0 <= k < y.len() && y[k] == e;
                assert(key(x[p]) != key(x[xl]));
                assert(ys[k] == e);
            }
            if ys.contains(e) {
                let p = choose|p: int| 0 <= p < ys.len() && ys[p] == e;
                assert(y[p] == e);
                assert(y.contains(e));
                let k = choose|k: int| 0 <= k < x.len() && x[k] == e;
                assert(key(y[p]) != key(y[yl]));
                assert(xs[k] == e);
            }
        }
        assert(strictly_sorted(xs, key)) by {
            assert forall|p: int, q: int| 0 <= p < q < xs.len() implies name_le(
                key(#[trigger] xs[p]),
                key(#[trigger] xs[q]),
            ) && key(xs[p]) != key(xs[q]) by {
                assert(xs[p] == x[p] && xs[q] == x[q]);
            }
        }
        assert(strictly_sorted(ys, key)) by {
            assert forall|p: int, q: int| 0 <= p < q < ys.len() implies name_le(
                key(#[trigger] ys[p]),
                key(#[trigger] ys[q]),
            ) && key(ys[p]) != key(ys[q]) by {
                assert(ys[p] == y[p] && ys[q] == y[q]);
            }
        }
        lemma_strictly_sorted_unique(xs, ys, key);
        assert(x =~= xs.push(x[xl]));
        assert(y =~= ys.push(y[yl]));
    }
}

/// Sorting items that share no name puts them in the order of their
/// names, whatever order they came in, and loses and adds none.
pub proof fn lemma_sorted_distinct<T>(items: Seq<T>, key: spec_fn(T) -> Seq<char>)
    requires
        distinct_names(items, key),
    ensures
        strictly_sorted(arrange(items, sorted_order(items.map_values(key))), key),
        same_items(arrange(items, sorted_order(items.map_values(key))), items),
{
    let names = items.map_values(key);
    let order = sorted_order(names);
    let sorted = arrange(items, order);
    lemma_sort_order_stable(names, names.len() as int);
    assert forall|p: int, q: int| 0 <= p < q < sorted.len() implies name_le(
        key(#[trigger] sorted[p]),
        key(#[trigger] sorted[q]),
    ) && key(sorted[p]) != key(sorted[q]) by {
        assert(comes_before(names, order[p], order[q]));
        assert(names[order[p]] == key(items[order[p]]));
        assert(names[order[q]] == key(items[order[q]]));
        if order[p] == order[q] {
        } else if order[p] < order[q] {
            assert(key(items[order[p]]) != key(items[order[q]]));
        } else {
            assert(key(items[order[q]]) != key(items[order[p]]));
        }
    }
    assert forall|e: T| sorted.contains(e) <==> items.contains(e) by {
        if sorted.contains(e) {
            let k = choose|k: int| 0 <= k < sorted.len() && sorted[k] == e;
            assert(items[order[k]] == e);
        }
        if items.contains(e) {
            let i = choose|i: int| 0 <= i < items.len() && items[i] == e;
            assert(order.contains(i));
            let k = choose|k: int| 0 <= k < order.len() && order[k] == i;
            assert(sorted[k] == e);
        }
    }
}

/// Two runs that hold the same items, none of them a name twice, come out
/// of the sort as the same run: the sort forgets the order they came in.
pub proof fn lemma_sort_forgets_order<T>(x: Seq<T>, y: Seq<T>, key: spec_fn(T) -> Seq<char>)
    requires
        same_items(x, y),
        distinct_names(x, key),
        distinct_names(y, key),
    ensures
        arrange(x, sorted_order(x.map_values(key))) == arrange(y, sorted_order(y.map_values(key))),
{
    lemma_sorted_distinct(x, key);
    lemma_sorted_distinct(y, key);
    let sx = arrange(x, sorted_order(x.map_values(key)));
    let sy = arrange(y, sorted_order(y.map_values(key)));
    assert forall|e: T| sx.contains(e) <==> sy.contains(e) by {
        assert(sx.contains(e) <==> x.contains(e));
        assert(sy.contains(e) <==> y.contains(e));
    }
    lemma_strictly_sorted_unique(sx, sy, key);
}

} // verus!
