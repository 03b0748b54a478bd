//! Sums over sequences and over finite maps, and how they change when the
//! sequence or the map does.

use vstd::prelude::*;

verus! {

/// The sum of `w` over the elements of `s`.
pub open spec fn weigh<T>(s: Seq<T>, w: spec_fn(T) -> nat) -> nat
    decreases s.len(),
{
    if s.len() == 0 {
        0
    } else {
        weigh(s.drop_last(), w) + w(s.last())
    }
}

/// One element more weighs its weight more.
pub proof fn lemma_weigh_push<T>(s: Seq<T>, x: T, w: spec_fn(T) -> nat)
    ensures
        weigh(s.push(x), w) == weigh(s, w) + w(x),
{
    assert(s.push(x).drop_last() =~= s);
}

/// Two sequences put together weigh what they weigh apart.
pub proof fn lemma_weigh_concat<T>(a: Seq<T>, b: Seq<T>, w: spec_fn(T) -> nat)
    ensures
        weigh(a + b, w) == weigh(a, w) + weigh(b, w),
    decreases b.len(),
{
    if b.len() == 0 {
        assert(a + b =~= a);
    } else {
        assert((a + b).drop_last() =~= a + b.drop_last());
        lemma_weigh_concat(a, b.drop_last(), w);
    }
}

/// A single element weighs its weight.
pub proof fn lemma_weigh_one<T>(x: T, w: spec_fn(T) -> nat)
    ensures
        weigh(seq![x], w) == w(x),
{
    assert(seq![x] =~= Seq::<T>::empty().push(x));
    lemma_weigh_push(Seq::<T>::empty(), x, w);
}

/// Cutting a sequence in two cuts its sum in two.
pub proof fn lemma_weigh_cut<T>(s: Seq<T>, k: int, w: spec_fn(T) -> nat)
    requires
        0 <= k <= s.len(),
    ensures
        weigh(s, w) == weigh(s.take(k), w) + weigh(s.skip(k), w),
{
    assert(s =~= s.take(k) + s.skip(k));
    lemma_weigh_concat(s.take(k), s.skip(k), w);
}

/// An element put in anywhere adds its weight.
pub proof fn lemma_weigh_insert<T>(s: Seq<T>, k: int, x: T, w: spec_fn(T) -> nat)
    requires
        0 <= k <= s.len(),
    ensures
        weigh(s.insert(k, x), w) == weigh(s, w) + w(x),
{
    assert(s.insert(k, x) =~= s.take(k).push(x) + s.skip(k));
    lemma_weigh_concat(s.take(k).push(x), s.skip(k), w);
    lemma_weigh_push(s.take(k), x, w);
    lemma_weigh_cut(s, k, w);
}

/// No element weighs more than the whole.
pub proof fn lemma_weigh_member<T>(s: Seq<T>, k: int, w: spec_fn(T) -> nat)
    requires
        0 <= k < s.len(),
    ensures
        w(s[k]) <= weigh(s, w),
    decreases s.len(),
{
    if k < s.len() - 1 {
        lemma_weigh_member(s.drop_last(), k, w);
    }
}

/// Filtering never adds weight.
pub proof fn lemma_weigh_filter<T>(s: Seq<T>, keep: spec_fn(T) -> bool, w: spec_fn(T) -> nat)
    ensures
        weigh(s.filter(keep), w) <= weigh(s, w),
    decreases s.len(),
{
    reveal(Seq::filter);
    if s.len() > 0 {
        lemma_weigh_filter(s.drop_last(), keep, w);
        if keep(s.last()) {
            lemma_weigh_push(s.drop_last().filter(keep), s.last(), w);
        }
    }
}

/// Filtering takes away at least the weight of an element it drops.
pub proof fn lemma_weigh_filter_drops<T>(
    s: Seq<T>,
    k: int,
    keep: spec_fn(T) -> bool,
    w: spec_fn(T) -> nat,
)
    requires
        0 <= k < s.len(),
        !keep(s[k]),
    ensures
        weigh(s.filter(keep), w) + w(s[k]) <= weigh(s, w),
    decreases s.len(),
{
    reveal(Seq::filter);
    if k == s.len() - 1 {
        lemma_weigh_filter(s.drop_last(), keep, w);
    } else {
        lemma_weigh_filter_drops(s.drop_last(), k, keep, w);
        if keep(s.last()) {
            lemma_weigh_push(s.drop_last().filter(keep), s.last(), w);
        }
    }
}

/// Weights that agree on every element of a sequence give the same sum.
pub proof fn lemma_weigh_agree<T>(s: Seq<T>, v: spec_fn(T) -> nat, w: spec_fn(T) -> nat)
    requires
        forall|i: int| 0 <= i < s.len() ==> v(#[trigger] s[i]) == w(s[i]),
    ensures
        weigh(s, v) == weigh(s, w),
    decreases s.len(),
{
    if s.len() > 0 {
        assert forall|i: int| 0 <= i < s.drop_last().len() implies v(#[trigger] s.drop_last()[i])
            == w(s.drop_last()[i]) by {
            assert(s.drop_last()[i] == s[i]);
        }
        lemma_weigh_agree(s.drop_last(), v, w);
        assert(v(s[s.len() - 1]) == w(s[s.len() - 1]));
    }
}

/// Weights that are nowhere above others, on the elements of a sequence,
/// give no greater sum.
pub proof fn lemma_weigh_monotone<T>(s: Seq<T>, v: spec_fn(T) -> nat, w: spec_fn(T) -> nat)
    requires
        forall|i: int| 0 <= i < s.len() ==> v(#[trigger] s[i]) <= w(s[i]),
    ensures
        weigh(s, v) <= weigh(s, w),
    decreases s.len(),
{
    if s.len() > 0 {
        assert forall|i: int| 0 <= i < s.drop_last().len() implies v(#[trigger] s.drop_last()[i])
            <= w(s.drop_last()[i]) by {
            assert(s.drop_last()[i] == s[i]);
        }
        lemma_weigh_monotone(s.drop_last(), v, w);
        assert(v(s[s.len() - 1]) <= w(s[s.len() - 1]));
    }
}

/// Elements that all weigh nothing sum to nothing.
pub proof fn lemma_weigh_nothing<T>(s: Seq<T>, w: spec_fn(T) -> nat)
    requires
        forall|i: int| 0 <= i < s.len() ==> w(#[trigger] s[i]) == 0,
    ensures
        weigh(s, w) == 0,
    decreases s.len(),
{
    if s.len() > 0 {
        assert forall|i: int| 0 <= i < s.drop_last().len() implies w(#[trigger] s.drop_last()[i])
            == 0 by {
            assert(s.drop_last()[i] == s[i]);
        }
        lemma_weigh_nothing(s.drop_last(), w);
        assert(w(s[s.len() - 1]) == 0);
    }
}

/// The sum is the weight of the first element and the sum of the rest.
pub proof fn lemma_weigh_head<T>(s: Seq<T>, w: spec_fn(T) -> nat)
    requires
        s.len() > 0,
    ensures
        weigh(s, w) == w(s[0]) + weigh(s.skip(1), w),
{
    lemma_weigh_cut(s, 1, w);
    assert(s.take(1) =~= seq![s[0]]);
    lemma_weigh_one(s[0], w);
}

/// The sum of the values of a finite map.
pub open spec fn total(m: Map<u128, nat>) -> nat
    decreases m.dom().len(),
    when m.dom().finite()
{
    if m.dom().len() == 0 {
        0
    } else {
        let k = m.dom().choose();
        m[k] + total(m.remove(k))
    }
}

/// The sum can be taken starting from any key.
pub proof fn lemma_total_remove(m: Map<u128, nat>, k: u128)
    requires
        m.dom().finite(),
        m.contains_key(k),
    ensures
        total(m) == m[k] + total(m.remove(k)),
    decreases m.dom().len(),
{
    let c = m.dom().choose();
    if c != k {
        lemma_total_remove(m.remove(c), k);
        lemma_total_remove(m.remove(k), c);
        assert(m.remove(c).remove(k) =~= m.remove(k).remove(c));
    }
}

/// Writing a value under a key changes the sum by the difference to what
/// stood there before.
pub proof fn lemma_total_insert(m: Map<u128, nat>, k: u128, v: nat)
    requires
        m.dom().finite(),
    ensures
        total(m.insert(k, v)) + (if m.contains_key(k) {
            m[k]
        } else {
            0
        }) == total(m) + v,
{
    lemma_total_remove(m.insert(k, v), k);
    if m.contains_key(k) {
        lemma_total_remove(m, k);
        assert(m.insert(k, v).remove(k) =~= m.remove(k));
    } else {
        assert(m.insert(k, v).remove(k) =~= m);
    }
}

/// No value exceeds the sum.
pub proof fn lemma_total_bound(m: Map<u128, nat>, k: u128)
    requires
        m.dom().finite(),
        m.contains_key(k),
    ensures
        m[k] <= total(m),
{
    lemma_total_remove(m, k);
}

/// A map whose values are all zero sums to zero.
pub proof fn lemma_total_nothing(m: Map<u128, nat>)
    requires
        m.dom().finite(),
        forall|k: u128| m.contains_key(k) ==> #[trigger] m[k] == 0,
    ensures
        total(m) == 0,
    decreases m.dom().len(),
{
    if m.dom().len() > 0 {
        let k = m.dom().choose();
        assert(m[k] == 0);
        lemma_total_nothing(m.remove(k));
    }
}

/// A map that is nowhere above another, over the same keys, sums to no more.
pub proof fn lemma_total_monotone(a: Map<u128, nat>, b: Map<u128, nat>)
    requires
        a.dom().finite(),
        a.dom() == b.dom(),
        forall|k: u128| a.contains_key(k) ==> a[k] <= b[k],
    ensures
        total(a) <= total(b),
    decreases a.dom().len(),
{
    if a.dom().len() > 0 {
        let k = a.dom().choose();
        lemma_total_remove(a, k);
        lemma_total_remove(b, k);
        assert(a.remove(k).dom() == b.remove(k).dom());
        lemma_total_monotone(a.remove(k), b.remove(k));
    }
}

/// The map `m` with nothing under the keys outside `seen`.
pub open spec fn masked(m: Map<u128, nat>, seen: Set<u128>) -> Map<u128, nat> {
    Map::new(
        |k: u128| m.contains_key(k),
        |k: u128|
            if seen.contains(k) {
                m[k]
            } else {
                0
            },
    )
}

/// The sum over the keys seen so far: nothing at first, one value more with
/// each new key, never more than the whole, and the whole once every key
/// has been seen.
pub proof fn lemma_masked_total(m: Map<u128, nat>, seen: Set<u128>, k: u128)
    requires
        m.dom().finite(),
    ensures
        total(masked(m, Set::empty())) == 0,
        total(masked(m, seen)) <= total(m),
        m.contains_key(k) && !seen.contains(k) ==> total(masked(m, seen.insert(k))) == total(
            masked(m, seen),
        ) + m[k],
        m.dom().subset_of(seen) ==> total(masked(m, seen)) == total(m),
{
    assert(masked(m, Set::empty()).dom() =~= m.dom());
    lemma_total_nothing(masked(m, Set::empty()));
    assert(masked(m, seen).dom() =~= m.dom());
    lemma_total_monotone(masked(m, seen), m);
    if m.contains_key(k) && !seen.contains(k) {
        assert(masked(m, seen.insert(k)) =~= masked(m, seen).insert(k, m[k]));
        lemma_total_insert(masked(m, seen), k, m[k]);
    }
    if m.dom().subset_of(seen) {
        assert(masked(m, seen) =~= m);
    }
}

} // verus!
