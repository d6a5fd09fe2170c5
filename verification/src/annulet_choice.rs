//! Which of the held notes a send of another asset than 0 spends: the fewest
//! that cover the amount, and the largest.
use vstd::prelude::*;

#[allow(unused_imports)]
use crate::annulet_send::{
    ascending, cover_from, descending, falling, gathered, holdings, lemma_ascending, lemma_cover,
    lemma_gathered, lemma_sum_take_next, lemma_tight_merge, lemma_tight_top, merge_down, merged,
    rising, sum_of, tight, Src,
};
#[allow(unused_imports)]
use crate::order::{in_order, lemma_order, lemma_order_covers, order};

verus! {

/// What the notes at the places `o` are worth together.
pub open spec fn worth_at(v: Seq<u64>, o: Seq<int>) -> nat
    decreases o.len(),
{
    if o.len() == 0 {
        0
    } else {
        worth_at(v, o.drop_last()) + v[o.last()] as nat
    }
}

/// Places of notes that are held, each once.
pub open spec fn is_choice(v: Seq<u64>, o: Seq<int>) -> bool {
    &&& forall|i: int| 0 <= i < o.len() ==> 0 <= #[trigger] o[i] < v.len()
    &&& forall|i: int, j: int| 0 <= i < j < o.len() ==> #[trigger] o[i] != #[trigger] o[j]
}

proof fn lemma_worth_without(v: Seq<u64>, o: Seq<int>, at: int)
    requires
        0 <= at < o.len(),
    ensures
        worth_at(v, o) == worth_at(v, o.remove(at)) + v[o[at]],
    decreases o.len(),
{
    let p = o.remove(at);
    if at == o.len() - 1 {
        assert(p =~= o.drop_last());
    } else {
        lemma_worth_without(v, o.drop_last(), at);
        assert(p.drop_last() =~= o.drop_last().remove(at));
        assert(p.last() == o.last());
    }
}

/// Of values that fall, no choice of `n` among the first `l` is worth more than
/// the first `n`.
proof fn lemma_first_are_most(d: Seq<u64>, o: Seq<int>, l: int, first: Seq<int>)
    requires
        0 <= l <= d.len(),
        forall|i: int, j: int| 0 <= i < j < d.len() ==> #[trigger] d[i] >= #[trigger] d[j],
        is_choice(d.take(l), o),
        first.len() == o.len(),
        forall|i: int| 0 <= i < first.len() ==> #[trigger] first[i] == i,
    ensures
        o.len() <= l,
        worth_at(d, o) <= worth_at(d, first),
    decreases l,
{
    if l == 0 {
        if o.len() > 0 {
            assert(0 <= o[0] < 0);
        }
    } else if exists|at: int| 0 <= at < o.len() && o[at] == l - 1 {
        let at = choose|at: int| 0 <= at < o.len() && o[at] == l - 1;
        let p = o.remove(at);
        assert forall|i: int| 0 <= i < p.len() implies 0 <= #[trigger] p[i] < d.take(l - 1).len() by {
            let k = if i < at {
                i
            } else {
                i + 1
            };
            assert(p[i] == o[k]);
            assert(o[k] != o[at]);
        }
        assert forall|i: int, j: int| 0 <= i < j < p.len() implies #[trigger] p[i] != #[trigger] p[j] by {
            let x = if i < at {
                i
            } else {
                i + 1
            };
            let y = if j < at {
                j
            } else {
                j + 1
            };
            assert(p[i] == o[x] && p[j] == o[y]);
        }
        lemma_first_are_most(d, p, l - 1, first.drop_last());
        lemma_worth_without(d, o, at);
        let n = o.len() - 1;
        assert(first.last() == n);
        assert(n < l - 1 ==> d[n] >= d[l - 1]);
    } else {
        assert forall|i: int| 0 <= i < o.len() implies 0 <= #[trigger] o[i] < d.take(l - 1).len() by {
            assert(o[i] != l - 1);
        }
        lemma_first_are_most(d, o, l - 1, first);
    }
}

proof fn lemma_worth_moved(v: Seq<u64>, o: Seq<int>, w: Seq<u64>, p: Seq<int>)
    requires
        o.len() == p.len(),
        forall|i: int| 0 <= i < o.len() ==> v[#[trigger] o[i]] == w[p[i]],
    ensures
        worth_at(v, o) == worth_at(w, p),
    decreases o.len(),
{
    if o.len() > 0 {
        assert(v[o[o.len() - 1]] == w[p[o.len() - 1]]);
        assert forall|i: int| 0 <= i < o.drop_last().len() implies v[#[trigger] o.drop_last()[i]]
            == w[p.drop_last()[i]] by {
            assert(o.drop_last()[i] == o[i]);
        }
        lemma_worth_moved(v, o.drop_last(), w, p.drop_last());
    }
}

proof fn lemma_worth_of_first(s: Seq<Src>, d: Seq<u64>, first: Seq<int>)
    requires
        s.len() == d.len(),
        forall|i: int| 0 <= i < s.len() ==> #[trigger] d[i] == s[i].worth(),
        first.len() <= s.len(),
        forall|i: int| 0 <= i < first.len() ==> #[trigger] first[i] == i,
    ensures
        worth_at(d, first) == sum_of(s.take(first.len() as int)),
    decreases first.len(),
{
    let n = first.len() as int;
    if n > 0 {
        lemma_worth_of_first(s, d, first.drop_last());
        lemma_sum_take_next(s, n - 1);
        assert(first.last() == n - 1);
    } else {
        assert(s.take(0) =~= Seq::empty());
    }
}

/// The places of the notes that are gathered.
pub open spec fn gathered_at(v: Seq<u64>, asset: u16, amount: u64) -> Seq<int> {
    let h = holdings(v, asset);
    order(falling(h)).take(cover_from(descending(h), amount, 0))
}

proof fn lemma_worth_is_sum(v: Seq<u64>, o: Seq<int>, s: Seq<Src>)
    requires
        o.len() == s.len(),
        forall|i: int| 0 <= i < s.len() ==> v[o[i]] == (#[trigger] s[i]).worth(),
    ensures
        worth_at(v, o) == sum_of(s),
    decreases o.len(),
{
    if o.len() > 0 {
        assert(v[o[o.len() - 1]] == s[s.len() - 1].worth());
        assert forall|i: int| 0 <= i < s.drop_last().len() implies v[o.drop_last()[i]] == (
        #[trigger] s.drop_last()[i]).worth() by {
            assert(s.drop_last()[i] == s[i]);
        }
        lemma_worth_is_sum(v, o.drop_last(), s.drop_last());
    }
}

/// What is gathered stands at its places, each once, and no note that is left
/// is worth more than one of them.
pub proof fn lemma_gathered_at(v: Seq<u64>, asset: u16, amount: u64)
    ensures
        is_choice(v, gathered_at(v, asset, amount)),
        gathered_at(v, asset, amount).len() == gathered(v, asset, amount).len(),
        forall|i: int|
            0 <= i < gathered(v, asset, amount).len() ==> #[trigger] gathered(v, asset, amount)[i]
                == holdings(v, asset)[gathered_at(v, asset, amount)[i]],
        worth_at(v, gathered_at(v, asset, amount)) == sum_of(gathered(v, asset, amount)),
        forall|p: int, q: int|
            gathered_at(v, asset, amount).contains(p) && 0 <= q < v.len() && !gathered_at(
                v,
                asset,
                amount,
            ).contains(q) ==> #[trigger] v[p] >= #[trigger] v[q],
{
    let h = holdings(v, asset);
    let keys = falling(h);
    let d = descending(h);
    let k = cover_from(d, amount, 0);
    let o = gathered_at(v, asset, amount);
    lemma_order(keys);
    lemma_cover(d, amount, 0);
    lemma_worth_is_sum(v, o, gathered(v, asset, amount));
    assert forall|p: int, q: int| o.contains(p) && 0 <= q < v.len() && !o.contains(q) implies
        #[trigger] v[p] >= #[trigger] v[q] by {
        let i = choose|i: int| 0 <= i < o.len() && o[i] == p;
        let j = lemma_order_covers(keys, q);
        if j < k {
            assert(o[j] == q);
        }
        assert(order(keys)[i] == p);
        assert(keys[order(keys)[i]] <= keys[order(keys)[j]]);
    }
}

/// No fewer notes than are gathered cover the amount.
pub proof fn lemma_gathered_are_fewest(v: Seq<u64>, asset: u16, amount: u64, other: Seq<int>)
    requires
        is_choice(v, other),
        worth_at(v, other) >= amount,
    ensures
        gathered(v, asset, amount).len() <= other.len(),
{
    let h = holdings(v, asset);
    let keys = falling(h);
    let s = descending(h);
    let d = Seq::new(s.len(), |i: int| s[i].worth());
    let k = cover_from(s, amount, 0);
    lemma_order(keys);
    lemma_cover(s, amount, 0);
    assert forall|i: int, j: int| 0 <= i < j < d.len() implies #[trigger] d[i] >= #[trigger] d[j] by {
        assert(keys[order(keys)[i]] <= keys[order(keys)[j]]);
    }
    let p = Seq::new(
        other.len(),
        |i: int| choose|j: int| 0 <= j < keys.len() && order(keys)[j] == other[i],
    );
    assert forall|i: int| 0 <= i < p.len() implies 0 <= #[trigger] p[i] < keys.len() && order(
        keys,
    )[p[i]] == other[i] by {
        let j = lemma_order_covers(keys, other[i]);
        assert(0 <= j < keys.len() && order(keys)[j] == other[i]);
    }
    let l = d.len() as int;
    assert(d.take(l) =~= d);
    assert forall|i: int, j: int| 0 <= i < j < p.len() implies #[trigger] p[i] != #[trigger] p[j] by {
        assert(other[i] != other[j]);
    }
    assert forall|i: int| 0 <= i < other.len() implies v[#[trigger] other[i]] == d[p[i]] by {
        assert(order(keys)[p[i]] == other[i]);
    }
    lemma_worth_moved(v, other, d, p);
    let first = Seq::new(other.len(), |i: int| i);
    lemma_first_are_most(d, p, l, first);
    lemma_worth_of_first(s, d, first);
    if other.len() < k {
        lemma_takes_grow(s, other.len() as int, k - 1);
    }
}

proof fn lemma_takes_grow(s: Seq<Src>, a: int, b: int)
    requires
        0 <= a <= b <= s.len(),
    ensures
        sum_of(s.take(a)) <= sum_of(s.take(b)),
    decreases b - a,
{
    if a < b {
        lemma_takes_grow(s, a, b - 1);
        lemma_sum_take_next(s, b - 1);
    }
}

/// A source is left to pay with, or was merged.
pub open spec fn in_play(chosen: Seq<Src>, pairs: Seq<(Src, Src)>, src: Src) -> bool {
    chosen.contains(src) || exists|k: int|
        0 <= k < pairs.len() && ((#[trigger] pairs[k]).0 == src || pairs[k].1 == src)
}

/// Merging a tight choice down makes two fewer merges than there are sources and
/// leaves two; every held source stays in play, and no other comes in.
pub proof fn lemma_merge_down_counts(
    chosen: Seq<Src>,
    pairs: Seq<(Src, Src)>,
    asset: u16,
    amount: u64,
    m: nat,
)
    requires
        tight(chosen, amount, m),
    ensures
        ({
            let r = merge_down(chosen, pairs, asset, amount);
            &&& r.0.len() == if chosen.len() > 2 {
                2
            } else {
                chosen.len()
            }
            &&& r.1.len() == pairs.len() + if chosen.len() > 2 {
                chosen.len() - 2
            } else {
                0
            }
            &&& forall|src: Src|
                src is Held ==> (#[trigger] in_play(r.0, r.1, src) <==> in_play(chosen, pairs, src))
        }),
    decreases chosen.len(),
{
    lemma_tight_top(chosen, amount, m);
    if chosen.len() > 2 {
        let up = ascending(chosen);
        lemma_ascending(chosen);
        lemma_tight_merge(chosen, amount, m, pairs.len(), asset);
        let next = up.skip(2).push(merged(up[0], up[1], pairs.len(), asset));
        let more = pairs.push((up[0], up[1]));
        lemma_merge_down_counts(next, more, asset, amount, m);
        assert forall|src: Src| src is Held implies (#[trigger] in_play(next, more, src) <==> in_play(
            chosen,
            pairs,
            src,
        )) by {
            lemma_in_play_kept(chosen, pairs, asset, src);
        }
    }
}

proof fn lemma_in_play_kept(chosen: Seq<Src>, pairs: Seq<(Src, Src)>, asset: u16, src: Src)
    requires
        src is Held,
        chosen.len() > 2,
    ensures
        ({
            let up = ascending(chosen);
            let next = up.skip(2).push(merged(up[0], up[1], pairs.len(), asset));
            let more = pairs.push((up[0], up[1]));
            in_play(next, more, src) <==> in_play(chosen, pairs, src)
        }),
{
    let up = ascending(chosen);
    let keys = rising(chosen);
    let next = up.skip(2).push(merged(up[0], up[1], pairs.len(), asset));
    let more = pairs.push((up[0], up[1]));
    let n = pairs.len() as int;
    lemma_order(keys);
    lemma_ascending(chosen);
    if in_play(chosen, pairs, src) {
        if chosen.contains(src) {
            let x = choose|x: int| 0 <= x < chosen.len() && chosen[x] == src;
            let i = lemma_order_covers(keys, x);
            assert(up[i] == src);
            if i < 2 {
                assert(more[n].0 == src || more[n].1 == src);
            } else {
                assert(next[i - 2] == src);
            }
        } else {
            let k = choose|k: int|
                0 <= k < pairs.len() && ((#[trigger] pairs[k]).0 == src || pairs[k].1 == src);
            assert(more[k] == pairs[k]);
        }
    }
    if in_play(next, more, src) {
        if next.contains(src) {
            let x = choose|x: int| 0 <= x < next.len() && next[x] == src;
            assert(x < next.len() - 1);
            assert(up[x + 2] == src);
            assert(chosen.contains(up[x + 2]));
        } else {
            let k = choose|k: int|
                0 <= k < more.len() && ((#[trigger] more[k]).0 == src || more[k].1 == src);
            if k < n {
                assert(pairs[k] == more[k]);
            } else {
                assert(chosen.contains(up[0]) && chosen.contains(up[1]));
            }
        }
    }
}

} // verus!
