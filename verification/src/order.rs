//! Stable ordering by a key.
use vstd::prelude::*;

verus! {

/// Where a key belongs among places that are in order: behind every key that
/// is not greater.
pub open spec fn slot(o: Seq<int>, keys: Seq<u64>, key: u64, j: int) -> int
    decreases o.len() - j,
{
    if j >= o.len() || j < 0 || keys[o[j]] > key {
        j
    } else {
        slot(o, keys, key, j + 1)
    }
}

/// The places of `keys` in ascending order of their keys; equal keys keep the
/// order that they stand in.
pub open spec fn order(keys: Seq<u64>) -> Seq<int>
    decreases keys.len(),
{
    if keys.len() == 0 {
        Seq::empty()
    } else {
        let front = order(keys.drop_last());
        front.insert(slot(front, keys, keys.last(), 0), keys.len() - 1)
    }
}

/// The items in the order of their keys.
pub open spec fn in_order<T>(items: Seq<T>, keys: Seq<u64>) -> Seq<T> {
    Seq::new(order(keys).len(), |i: int| items[order(keys)[i]])
}

/// `o` holds each place below `n` once.
pub open spec fn is_places(o: Seq<int>, n: int) -> bool {
    &&& o.len() == n
    &&& forall|i: int| 0 <= i < n ==> 0 <= #[trigger] o[i] < n
    &&& forall|i: int, j: int| 0 <= i < j < n ==> #[trigger] o[i] != #[trigger] o[j]
}

pub proof fn lemma_slot(o: Seq<int>, keys: Seq<u64>, key: u64, j: int)
    requires
        0 <= j <= o.len(),
    ensures
        j <= slot(o, keys, key, j) <= o.len(),
        forall|i: int| j <= i < slot(o, keys, key, j) ==> keys[#[trigger] o[i]] <= key,
        slot(o, keys, key, j) < o.len() ==> keys[o[slot(o, keys, key, j)]] > key,
    decreases o.len() - j,
{
    if j < o.len() && keys[o[j]] <= key {
        lemma_slot(o, keys, key, j + 1);
    }
}

/// The order holds each place once, and the keys ascend along it.
pub proof fn lemma_order(keys: Seq<u64>)
    ensures
        is_places(order(keys), keys.len() as int),
        forall|i: int, j: int|
            0 <= i < j < keys.len() ==> keys[#[trigger] order(keys)[i]] <= keys[#[trigger] order(keys)[j]],
    decreases keys.len(),
{
    if keys.len() > 0 {
        let short = keys.drop_last();
        let front = order(short);
        let n = keys.len() - 1;
        lemma_order(short);
        assert forall|i: int| 0 <= i < front.len() implies keys[#[trigger] front[i]] == short[front[i]] by {}
        let at = slot(front, keys, keys.last(), 0);
        lemma_slot(front, keys, keys.last(), 0);
        let o = order(keys);
        assert(o == front.insert(at, n));
        assert forall|i: int| 0 <= i < o.len() implies 0 <= #[trigger] o[i] < keys.len() by {
            if i < at {
                assert(o[i] == front[i]);
            } else if i > at {
                assert(o[i] == front[i - 1]);
            }
        }
        assert forall|i: int, j: int| 0 <= i < j < o.len() implies #[trigger] o[i] != #[trigger] o[j]
            && keys[o[i]] <= keys[o[j]] by {
            let x = if i < at {
                front[i]
            } else if i == at {
                n
            } else {
                front[i - 1]
            };
            let y = if j < at {
                front[j]
            } else if j == at {
                n
            } else {
                front[j - 1]
            };
            assert(o[i] == x && o[j] == y);
            if i == at {
                if at < front.len() {
                    assert(keys[front[at]] > keys.last());
                    if j - 1 > at {
                        assert(short[front[at]] <= short[front[j - 1]]);
                    }
                }
            }
        }
    }
}

/// The places of `keys` in ascending order of their keys.
pub fn order_of(keys: &[u64]) -> (r: Vec<usize>)
    ensures
        r@.len() == order(keys@).len(),
        forall|i: int| 0 <= i < r@.len() ==> #[trigger] r@[i] as int == order(keys@)[i],
        forall|i: int| 0 <= i < r@.len() ==> #[trigger] r@[i] < keys@.len(),
        r@.len() == keys@.len(),
{
    let mut r: Vec<usize> = Vec::new();
    let mut n: usize = 0;
    assert(keys@.take(0) =~= Seq::empty());
    while n < keys.len()
        invariant
            n <= keys@.len(),
            r@.len() == n,
            order(keys@.take(n as int)).len() == n,
            forall|i: int|
                0 <= i < r@.len() ==> #[trigger] r@[i] as int == order(keys@.take(n as int))[i],
        decreases keys@.len() - n,
    {
        let ghost p = keys@.take(n + 1);
        let ghost front = order(keys@.take(n as int));
        proof {
            assert(p.drop_last() =~= keys@.take(n as int));
            lemma_order(keys@.take(n as int));
            lemma_order(p);
        }
        let key: u64 = keys[n];
        let mut j: usize = 0;
        while j < r.len() && keys[r[j]] <= key
            invariant
                j <= r@.len(),
                r@.len() == n,
                n < keys@.len(),
                p == keys@.take(n + 1),
                front == order(keys@.take(n as int)),
                is_places(front, n as int),
                forall|i: int| 0 <= i < r@.len() ==> #[trigger] r@[i] as int == front[i],
                key == keys@[n as int],
                slot(front, p, key, 0) == slot(front, p, key, j as int),
            decreases r@.len() - j,
        {
            assert(p[front[j as int]] == keys@[r@[j as int] as int]);
            j += 1;
        }
        proof {
            if j < r@.len() {
                assert(p[front[j as int]] == keys@[r@[j as int] as int]);
            }
            assert(slot(front, p, key, 0) == j);
            assert(order(p) == front.insert(j as int, n as int));
        }
        let ghost before = r@;
        r.insert(j, n);
        proof {
            assert forall|i: int| 0 <= i < r@.len() implies #[trigger] r@[i] as int == order(p)[i] by {
                if i < j {
                    assert(r@[i] == before[i]);
                } else if i > j {
                    assert(r@[i] == before[i - 1]);
                }
            }
        }
        n += 1;
    }
    proof {
        assert(keys@.take(keys@.len() as int) =~= keys@);
        lemma_order(keys@);
        assert forall|i: int| 0 <= i < r@.len() implies #[trigger] r@[i] < keys@.len() by {
            assert(order(keys@)[i] < keys@.len());
        }
    }
    r
}

/// Places of equal keys keep the order that they stand in.
pub proof fn law_equal_keys_keep_their_order(keys: Seq<u64>)
    ensures
        forall|i: int, j: int|
            0 <= i < j < keys.len() && keys[#[trigger] order(keys)[i]] == keys[#[trigger] order(
                keys,
            )[j]] ==> order(keys)[i] < order(keys)[j],
    decreases keys.len(),
{
    if keys.len() > 0 {
        let short = keys.drop_last();
        let front = order(short);
        let n = keys.len() - 1;
        law_equal_keys_keep_their_order(short);
        lemma_order(short);
        lemma_order(keys);
        let at = slot(front, keys, keys.last(), 0);
        lemma_slot(front, keys, keys.last(), 0);
        let o = order(keys);
        assert(o == front.insert(at, n));
        assert forall|i: int, j: int| 0 <= i < j < keys.len() && keys[#[trigger] o[i]]
            == keys[#[trigger] o[j]] implies o[i] < o[j] by {
            let a = if i < at {
                i
            } else {
                i - 1
            };
            let b = if j < at {
                j
            } else {
                j - 1
            };
            if i == at {
                assert(o[j] == front[b]);
                assert(keys[front[at]] > keys.last());
                assert(keys[front[b]] == short[front[b]] && keys[front[at]] == short[front[at]]);
                if b > at {
                    assert(short[front[at]] <= short[front[b]]);
                }
            } else if j == at {
                assert(o[i] == front[a]);
            } else {
                assert(o[i] == front[a] && o[j] == front[b]);
                assert(keys[front[a]] == short[front[a]] && keys[front[b]] == short[front[b]]);
            }
        }
    }
}

/// The order leaves no place out.
pub proof fn lemma_order_covers(keys: Seq<u64>, x: int) -> (i: int)
    requires
        0 <= x < keys.len(),
    ensures
        0 <= i < keys.len(),
        order(keys)[i] == x,
    decreases keys.len(),
{
    let short = keys.drop_last();
    let front = order(short);
    let at = slot(front, keys, keys.last(), 0);
    lemma_order(short);
    lemma_slot(front, keys, keys.last(), 0);
    if x == keys.len() - 1 {
        at
    } else {
        let j = lemma_order_covers(short, x);
        if j < at {
            j
        } else {
            j + 1
        }
    }
}

} // verus!
