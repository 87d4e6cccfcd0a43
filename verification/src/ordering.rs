//! Ranking singular values: a stable descending order of indices by key.
//!
//! Keys are integers that order as the values they stand for (the bit
//! patterns of non-negative, non-NaN `f64` values do).

use vstd::prelude::*;

verus! {

/// Index `a` comes before index `b`: its key is larger, or the keys tie and
/// `a` is the smaller index (a stable sort keeps equal keys in place).
pub open spec fn ranks_before(keys: Seq<u64>, a: int, b: int) -> bool {
    keys[a] > keys[b] || (keys[a] == keys[b] && a < b)
}

/// `order` lists each index of `keys` once, by descending key, ties in
/// index order.
pub open spec fn is_descending_order(keys: Seq<u64>, order: Seq<usize>) -> bool {
    &&& order.len() == keys.len()
    &&& forall|i: int| 0 <= i < order.len() ==> #[trigger] order[i] < keys.len()
    &&& forall|k: usize| k < keys.len() ==> #[trigger] order.contains(k)
    &&& forall|i: int, j: int|
        0 <= i < j < order.len() ==> ranks_before(keys, #[trigger] order[i] as int, #[trigger] order[j] as int)
}

/// The indices `0..keys.len()` sorted by descending key, stably.
pub fn descending_order(keys: &Vec<u64>) -> (order: Vec<usize>)
    ensures
        is_descending_order(keys@, order@),
{
    let n = keys.len();
    let mut order: Vec<usize> = Vec::new();
    let mut i: usize = 0;
    while i < n
        invariant
            n == keys@.len(),
            i <= n,
            order@.len() == i,
            forall|p: int| 0 <= p < order@.len() ==> #[trigger] order@[p] < i,
            forall|k: usize| k < i ==> #[trigger] order@.contains(k),
            forall|p: int, q: int|
                0 <= p < q < order@.len() ==> ranks_before(
                    keys@,
                    #[trigger] order@[p] as int,
                    #[trigger] order@[q] as int,
                ),
        decreases n - i,
    {
        let key = keys[i];
        let mut pos: usize = 0;
        while pos < order.len() && keys[order[pos]] >= key
            invariant
                n == keys@.len(),
                i < n,
                key == keys@[i as int],
                pos <= order@.len(),
                forall|p: int| 0 <= p < order@.len() ==> #[trigger] order@[p] < i,
                forall|p: int| 0 <= p < pos ==> keys@[#[trigger] order@[p] as int] >= key,
            decreases order@.len() - pos,
        {
            pos += 1;
        }
        let ghost before = order@;
        order.insert(pos, i);
        proof {
            assert forall|p: int| 0 <= p < order@.len() implies #[trigger] order@[p] < i + 1 by {
                if p < pos {
                    assert(order@[p] == before[p]);
                } else if p > pos {
                    assert(order@[p] == before[p - 1]);
                }
            }
            assert forall|k: usize| k < i + 1 implies #[trigger] order@.contains(k) by {
                if k == i {
                    assert(order@[pos as int] == i);
                } else {
                    assert(before.contains(k));
                    let p = choose|p: int| 0 <= p < before.len() && before[p] == k;
                    if p < pos {
                        assert(order@[p] == before[p]);
                    } else {
                        assert(order@[p + 1] == before[p]);
                    }
                }
            }
            assert forall|p: int, q: int| 0 <= p < q < order@.len() implies ranks_before(
                keys@,
                #[trigger] order@[p] as int,
                #[trigger] order@[q] as int,
            ) by {
                if q < pos {
                    assert(order@[p] == before[p] && order@[q] == before[q]);
                } else if q == pos {
                    assert(order@[p] == before[p]);
                    assert(keys@[before[p] as int] >= key);
                } else if p < pos {
                    assert(order@[p] == before[p] && order@[q] == before[q - 1]);
                } else if p == pos {
                    assert(order@[q] == before[q - 1]);
                    assert(pos < before.len());
                    assert(keys@[before[pos as int] as int] < key);
                    if q - 1 > pos {
                        assert(ranks_before(keys@, before[pos as int] as int, before[q - 1] as int));
                    }
                } else {
                    assert(order@[p] == before[p - 1] && order@[q] == before[q - 1]);
                }
            }
        }
        i += 1;
    }
    order
}

/// The first index in the order carries the largest key and the last one
/// the smallest.
pub proof fn lemma_order_extremes(keys: Seq<u64>, order: Seq<usize>)
    requires
        is_descending_order(keys, order),
        keys.len() > 0,
    ensures
        forall|k: usize|
            k < keys.len() ==> keys[order[0] as int] >= #[trigger] keys[k as int] >= keys[order[order.len()
                - 1] as int],
{
    assert forall|k: usize| k < keys.len() implies keys[order[0] as int] >= #[trigger] keys[k as int]
        >= keys[order[order.len() - 1] as int] by {
        assert(order.contains(k));
        let p = choose|p: int| 0 <= p < order.len() && order[p] == k;
        if p > 0 {
            assert(ranks_before(keys, order[0] as int, order[p] as int));
        }
        if p < order.len() - 1 {
            assert(ranks_before(keys, order[p] as int, order[order.len() - 1] as int));
        }
    }
}

proof fn lemma_sorted_same_members_equal(keys: Seq<u64>, o1: Seq<usize>, o2: Seq<usize>)
    requires
        forall|i: int| 0 <= i < o1.len() ==> #[trigger] o1[i] < keys.len(),
        forall|i: int| 0 <= i < o2.len() ==> #[trigger] o2[i] < keys.len(),
        forall|i: int, j: int|
            0 <= i < j < o1.len() ==> ranks_before(keys, #[trigger] o1[i] as int, #[trigger] o1[j] as int),
        forall|i: int, j: int|
            0 <= i < j < o2.len() ==> ranks_before(keys, #[trigger] o2[i] as int, #[trigger] o2[j] as int),
        forall|x: usize|
            #![trigger o1.contains(x)]
            #![trigger o2.contains(x)]
            o1.contains(x) <==> o2.contains(x),
    ensures
        o1 == o2,
    decreases o1.len(),
{
    if o1.len() == 0 {
        if o2.len() > 0 {
            assert(o2.contains(o2[0]));
        }
        assert(o1 =~= o2);
    } else {
        assert(o1.contains(o1[0]));
        assert(o2.len() > 0);
        let h1 = o1[0];
        let h2 = o2[0];
        assert(o2.contains(h2));
        let m = choose|m: int| 0 <= m < o1.len() && o1[m] == h2;
        let j = choose|j: int| 0 <= j < o2.len() && o2[j] == h1;
        if h1 != h2 {
            assert(m > 0 && j > 0);
            assert(ranks_before(keys, h1 as int, h2 as int));
            assert(ranks_before(keys, h2 as int, h1 as int));
        }
        let t1 = o1.drop_first();
        let t2 = o2.drop_first();
        assert forall|x: usize|
            #![trigger t1.contains(x)]
            #![trigger t2.contains(x)]
            t1.contains(x) <==> t2.contains(x) by {
            if t1.contains(x) {
                let p = choose|p: int| 0 <= p < t1.len() && t1[p] == x;
                assert(o1[p + 1] == x);
                assert(o1.contains(x));
                assert(ranks_before(keys, o1[0] as int, o1[p + 1] as int));
                let q = choose|q: int| 0 <= q < o2.len() && o2[q] == x;
                assert(q != 0);
                assert(t2[q - 1] == x);
            }
            if t2.contains(x) {
                let p = choose|p: int| 0 <= p < t2.len() && t2[p] == x;
                assert(o2[p + 1] == x);
                assert(o2.contains(x));
                assert(ranks_before(keys, o2[0] as int, o2[p + 1] as int));
                let q = choose|q: int| 0 <= q < o1.len() && o1[q] == x;
                assert(q != 0);
                assert(t1[q - 1] == x);
            }
        }
        assert forall|i: int, j: int| 0 <= i < j < t1.len() implies ranks_before(
            keys,
            #[trigger] t1[i] as int,
            #[trigger] t1[j] as int,
        ) by {
            assert(t1[i] == o1[i + 1] && t1[j] == o1[j + 1]);
        }
        assert forall|i: int, j: int| 0 <= i < j < t2.len() implies ranks_before(
            keys,
            #[trigger] t2[i] as int,
            #[trigger] t2[j] as int,
        ) by {
            assert(t2[i] == o2[i + 1] && t2[j] == o2[j + 1]);
        }
        assert forall|i: int| 0 <= i < t1.len() implies #[trigger] t1[i] < keys.len() by {
            assert(t1[i] == o1[i + 1]);
        }
        assert forall|i: int| 0 <= i < t2.len() implies #[trigger] t2[i] < keys.len() by {
            assert(t2[i] == o2[i + 1]);
        }
        lemma_sorted_same_members_equal(keys, t1, t2);
        assert(o1 =~= seq![h1] + t1);
        assert(o2 =~= seq![h2] + t2);
    }
}

/// The keys fix the order: two orders that both meet `is_descending_order`
/// are the same sequence.
pub proof fn lemma_descending_order_unique(keys: Seq<u64>, o1: Seq<usize>, o2: Seq<usize>)
    requires
        is_descending_order(keys, o1),
        is_descending_order(keys, o2),
    ensures
        o1 == o2,
{
    assert forall|x: usize|
        #![trigger o1.contains(x)]
        #![trigger o2.contains(x)]
        o1.contains(x) <==> o2.contains(x) by {
        if o1.contains(x) {
            let p = choose|p: int| 0 <= p < o1.len() && o1[p] == x;
            assert(o1[p] < keys.len());
        }
        if o2.contains(x) {
            let p = choose|p: int| 0 <= p < o2.len() && o2[p] == x;
            assert(o2[p] < keys.len());
        }
    }
    lemma_sorted_same_members_equal(keys, o1, o2);
}

/// `values[order[j]]` for each `j`.
pub fn gather<T: Copy>(values: &Vec<T>, order: &Vec<usize>) -> (out: Vec<T>)
    requires
        forall|j: int| 0 <= j < order@.len() ==> #[trigger] order@[j] < values@.len(),
    ensures
        out@.len() == order@.len(),
        forall|j: int| 0 <= j < order@.len() ==> #[trigger] out@[j] == values@[order@[j] as int],
{
    let mut out: Vec<T> = Vec::new();
    let mut j: usize = 0;
    while j < order.len()
        invariant
            j <= order@.len(),
            forall|j: int| 0 <= j < order@.len() ==> #[trigger] order@[j] < values@.len(),
            out@.len() == j,
            forall|p: int| 0 <= p < j ==> #[trigger] out@[p] == values@[order@[p] as int],
        decreases order@.len() - j,
    {
        out.push(values[order[j]]);
        j += 1;
    }
    out
}

} // verus!
