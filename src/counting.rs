use vstd::prelude::*;

verus! {

/// How many elements of `s` satisfy `f`.
pub open spec fn count_where<T>(s: Seq<T>, f: spec_fn(T) -> bool) -> nat
    decreases s.len(),
{
    if s.len() == 0 {
        0
    } else {
        count_where(s.drop_last(), f) + if f(s.last()) { 1nat } else { 0nat }
    }
}

pub proof fn lemma_count_push<T>(s: Seq<T>, x: T, f: spec_fn(T) -> bool)
    ensures
        count_where(s.push(x), f) == count_where(s, f) + if f(x) { 1nat } else { 0nat },
{
    assert(s.push(x).drop_last() =~= s);
}

pub proof fn lemma_count_remove<T>(s: Seq<T>, i: int, f: spec_fn(T) -> bool)
    requires
        0 <= i < s.len(),
    ensures
        count_where(s, f) == count_where(s.remove(i), f) + if f(s[i]) { 1nat } else { 0nat },
    decreases s.len(),
{
    if i == s.len() - 1 {
        assert(s.remove(i) =~= s.drop_last());
    } else {
        lemma_count_remove(s.drop_last(), i, f);
        assert(s.remove(i).drop_last() =~= s.drop_last().remove(i));
        assert(s.remove(i).last() == s.last());
    }
}

pub proof fn lemma_count_update<T>(s: Seq<T>, i: int, x: T, f: spec_fn(T) -> bool)
    requires
        0 <= i < s.len(),
        f(x) == f(s[i]),
    ensures
        count_where(s.update(i, x), f) == count_where(s, f),
    decreases s.len(),
{
    if i == s.len() - 1 {
        assert(s.update(i, x).drop_last() =~= s.drop_last());
    } else {
        lemma_count_update(s.drop_last(), i, x, f);
        assert(s.update(i, x).drop_last() =~= s.drop_last().update(i, x));
    }
}

pub proof fn lemma_count_none<T>(s: Seq<T>, f: spec_fn(T) -> bool)
    requires
        forall|i: int| 0 <= i < s.len() ==> !f(#[trigger] s[i]),
    ensures
        count_where(s, f) == 0,
    decreases s.len(),
{
    if s.len() > 0 {
        lemma_count_none(s.drop_last(), f);
    }
}

/// The sum of `f` over `keys`.
pub open spec fn sum_over<K>(keys: Seq<K>, f: spec_fn(K) -> nat) -> nat
    decreases keys.len(),
{
    if keys.len() == 0 {
        0
    } else {
        sum_over(keys.drop_last(), f) + f(keys.last())
    }
}

pub proof fn lemma_sum_add<K>(keys: Seq<K>, f: spec_fn(K) -> nat, g: spec_fn(K) -> nat, h: spec_fn(K) -> nat)
    requires
        forall|k: K| #[trigger] h(k) == f(k) + g(k),
    ensures
        sum_over(keys, h) == sum_over(keys, f) + sum_over(keys, g),
    decreases keys.len(),
{
    if keys.len() > 0 {
        lemma_sum_add(keys.drop_last(), f, g, h);
    }
}

pub proof fn lemma_sum_zero<K>(keys: Seq<K>, f: spec_fn(K) -> nat)
    requires
        forall|k: K| #[trigger] f(k) == 0,
    ensures
        sum_over(keys, f) == 0,
    decreases keys.len(),
{
    if keys.len() > 0 {
        lemma_sum_zero(keys.drop_last(), f);
    }
}

/// Summing the indicator of `x` over keys without duplicates counts `x`
/// once if it is a key, else not at all.
pub proof fn lemma_sum_indicator<K>(keys: Seq<K>, x: K, f: spec_fn(K) -> nat)
    requires
        keys.no_duplicates(),
        forall|k: K| #[trigger] f(k) == if k == x { 1nat } else { 0nat },
    ensures
        sum_over(keys, f) == if keys.contains(x) { 1nat } else { 0nat },
    decreases keys.len(),
{
    if keys.len() > 0 {
        let rest = keys.drop_last();
        assert(rest.no_duplicates());
        lemma_sum_indicator(rest, x, f);
        if keys.last() == x {
            assert(!rest.contains(x)) by {
                if rest.contains(x) {
                    let j = choose|j: int| 0 <= j < rest.len() && rest[j] == x;
                    assert(keys[j] == keys[keys.len() - 1]);
                }
            }
            assert(keys.contains(x)) by {
                assert(keys[keys.len() - 1] == x);
            }
        } else {
            assert(keys.contains(x) == rest.contains(x)) by {
                if keys.contains(x) {
                    let j = choose|j: int| 0 <= j < keys.len() && keys[j] == x;
                    assert(j < keys.len() - 1);
                    assert(rest[j] == x);
                }
                if rest.contains(x) {
                    let j = choose|j: int| 0 <= j < rest.len() && rest[j] == x;
                    assert(keys[j] == x);
                }
            }
        }
    }
}

pub proof fn lemma_sum_bound<K>(keys: Seq<K>, f: spec_fn(K) -> nat, bound: nat)
    requires
        forall|i: int| 0 <= i < keys.len() ==> #[trigger] f(keys[i]) <= bound,
    ensures
        sum_over(keys, f) <= bound * keys.len(),
    decreases keys.len(),
{
    if keys.len() > 0 {
        let rest = keys.drop_last();
        assert forall|i: int| 0 <= i < rest.len() implies #[trigger] f(rest[i]) <= bound by {
            assert(rest[i] == keys[i]);
        }
        lemma_sum_bound(rest, f, bound);
        assert(f(keys[keys.len() - 1]) <= bound);
        assert(bound * keys.len() == bound * rest.len() + bound) by (nonlinear_arith)
            requires
                keys.len() == rest.len() + 1,
        ;
    }
}

/// The elements of `s` that satisfy `f`, in order.
pub open spec fn select<T>(s: Seq<T>, f: spec_fn(T) -> bool) -> Seq<T>
    decreases s.len(),
{
    if s.len() == 0 {
        Seq::empty()
    } else if f(s.last()) {
        select(s.drop_last(), f).push(s.last())
    } else {
        select(s.drop_last(), f)
    }
}

pub proof fn lemma_select_push<T>(s: Seq<T>, x: T, f: spec_fn(T) -> bool)
    ensures
        select(s.push(x), f) == if f(x) { select(s, f).push(x) } else { select(s, f) },
{
    assert(s.push(x).drop_last() =~= s);
}

pub proof fn lemma_select_all<T>(s: Seq<T>, f: spec_fn(T) -> bool)
    requires
        forall|i: int| 0 <= i < s.len() ==> #[trigger] f(s[i]),
    ensures
        select(s, f) == s,
    decreases s.len(),
{
    if s.len() > 0 {
        let rest = s.drop_last();
        assert forall|i: int| 0 <= i < rest.len() implies #[trigger] f(rest[i]) by {
            assert(rest[i] == s[i]);
        }
        lemma_select_all(rest, f);
        assert(f(s[s.len() - 1]));
        assert(rest.push(s.last()) =~= s);
    }
}

pub proof fn lemma_select_none<T>(s: Seq<T>, f: spec_fn(T) -> bool)
    requires
        forall|i: int| 0 <= i < s.len() ==> !#[trigger] f(s[i]),
    ensures
        select(s, f) == Seq::<T>::empty(),
    decreases s.len(),
{
    if s.len() > 0 {
        let rest = s.drop_last();
        assert forall|i: int| 0 <= i < rest.len() implies !#[trigger] f(rest[i]) by {
            assert(rest[i] == s[i]);
        }
        lemma_select_none(rest, f);
        assert(!f(s[s.len() - 1]));
    }
}

} // verus!
