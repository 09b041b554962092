//! Counting the items of a sequence that satisfy a predicate.

use vstd::prelude::*;

verus! {

/// The number of items of `s` that satisfy `p`.
pub open spec fn count_if<T>(s: Seq<T>, p: spec_fn(T) -> bool) -> nat
    decreases s.len(),
{
    if s.len() == 0 {
        0
    } else {
        count_if(s.drop_last(), p) + if p(s.last()) {
            1nat
        } else {
            0nat
        }
    }
}

/// One more item counts for one more when it satisfies the predicate.
pub proof fn lemma_count_step<T>(s: Seq<T>, i: int, p: spec_fn(T) -> bool)
    requires
        0 <= i < s.len(),
    ensures
        count_if(s.take(i + 1), p) == count_if(s.take(i), p) + if p(s[i]) {
            1nat
        } else {
            0nat
        },
        count_if(s.take(i), p) <= i,
        count_if(s.take(i + 1), p) <= i + 1,
{
    assert(s.take(i + 1).drop_last() == s.take(i));
    lemma_count_bound(s.take(i), p);
}

pub proof fn lemma_count_bound<T>(s: Seq<T>, p: spec_fn(T) -> bool)
    ensures
        count_if(s, p) <= s.len(),
    decreases s.len(),
{
    if s.len() > 0 {
        lemma_count_bound(s.drop_last(), p);
    }
}

/// Predicates that agree on every item count the same.
pub proof fn lemma_count_same<T>(s: Seq<T>, p: spec_fn(T) -> bool, q: spec_fn(T) -> bool)
    requires
        forall|i: int| 0 <= i < s.len() ==> p(#[trigger] s[i]) == q(s[i]),
    ensures
        count_if(s, p) == count_if(s, q),
    decreases s.len(),
{
    if s.len() > 0 {
        assert forall|i: int| 0 <= i < s.drop_last().len() implies p(#[trigger] s.drop_last()[i])
            == q(s.drop_last()[i]) by {
            assert(s.drop_last()[i] == s[i]);
        }
        lemma_count_same(s.drop_last(), p, q);
        assert(s.last() == s[s.len() - 1]);
    }
}

/// No item satisfies the predicate exactly when the count is zero.
pub proof fn lemma_count_zero<T>(s: Seq<T>, p: spec_fn(T) -> bool)
    ensures
        count_if(s, p) == 0 <==> forall|i: int| 0 <= i < s.len() ==> !p(#[trigger] s[i]),
    decreases s.len(),
{
    if s.len() > 0 {
        let h = s.drop_last();
        lemma_count_zero(h, p);
        if count_if(s, p) == 0 {
            assert forall|i: int| 0 <= i < s.len() implies !p(#[trigger] s[i]) by {
                if i < s.len() - 1 {
                    assert(h[i] == s[i]);
                }
            }
        } else {
            if forall|i: int| 0 <= i < s.len() ==> !p(#[trigger] s[i]) {
                assert(!p(s[s.len() - 1]));
                assert forall|i: int| 0 <= i < h.len() implies !p(#[trigger] h[i]) by {
                    assert(h[i] == s[i]);
                }
            }
        }
    }
}

/// The sum of the values that `f` gives to the items of `s`.
pub open spec fn sum_of<T>(s: Seq<T>, f: spec_fn(T) -> nat) -> nat
    decreases s.len(),
{
    if s.len() == 0 {
        0
    } else {
        sum_of(s.drop_last(), f) + f(s.last())
    }
}

pub proof fn lemma_sum_step<T>(s: Seq<T>, i: int, f: spec_fn(T) -> nat)
    requires
        0 <= i < s.len(),
    ensures
        sum_of(s.take(i + 1), f) == sum_of(s.take(i), f) + f(s[i]),
{
    assert(s.take(i + 1).drop_last() == s.take(i));
}

/// A sum of values that each stay under a bound stays under the bound
/// times the number of items.
pub proof fn lemma_sum_bound<T>(s: Seq<T>, f: spec_fn(T) -> nat, bound: nat)
    requires
        forall|i: int| 0 <= i < s.len() ==> f(#[trigger] s[i]) <= bound,
    ensures
        sum_of(s, f) <= s.len() * bound,
    decreases s.len(),
{
    if s.len() > 0 {
        let h = s.drop_last();
        assert forall|i: int| 0 <= i < h.len() implies f(#[trigger] h[i]) <= bound by {
            assert(h[i] == s[i]);
        }
        lemma_sum_bound(h, f, bound);
        assert(f(s[s.len() - 1]) <= bound);
        assert(s.len() * bound == h.len() * bound + bound) by (nonlinear_arith)
            requires
                s.len() == h.len() + 1,
        ;
    }
}

/// Where `f` is `g` plus `h` on every item, its sum is the sum of theirs.
pub proof fn lemma_sum_split<T>(
    s: Seq<T>,
    f: spec_fn(T) -> nat,
    g: spec_fn(T) -> nat,
    h: spec_fn(T) -> nat,
)
    requires
        forall|i: int| 0 <= i < s.len() ==> f(#[trigger] s[i]) == g(s[i]) + h(s[i]),
    ensures
        sum_of(s, f) == sum_of(s, g) + sum_of(s, h),
    decreases s.len(),
{
    if s.len() > 0 {
        let d = s.drop_last();
        assert forall|i: int| 0 <= i < d.len() implies f(#[trigger] d[i]) == g(d[i]) + h(d[i]) by {
            assert(d[i] == s[i]);
        }
        lemma_sum_split(d, f, g, h);
        assert(s.last() == s[s.len() - 1]);
    }
}

/// A sum of natural numbers is at least each of them.
pub proof fn lemma_sum_ge_item<T>(s: Seq<T>, f: spec_fn(T) -> nat, i: int)
    requires
        0 <= i < s.len(),
    ensures
        sum_of(s, f) >= f(s[i]),
    decreases s.len(),
{
    if i < s.len() - 1 {
        lemma_sum_ge_item(s.drop_last(), f, i);
        assert(s.drop_last()[i] == s[i]);
    } else {
        assert(s.last() == s[i]);
    }
}

/// Functions that agree on every item have the same sum.
pub proof fn lemma_sum_same<T>(s: Seq<T>, f: spec_fn(T) -> nat, g: spec_fn(T) -> nat)
    requires
        forall|i: int| 0 <= i < s.len() ==> f(#[trigger] s[i]) == g(s[i]),
    ensures
        sum_of(s, f) == sum_of(s, g),
    decreases s.len(),
{
    if s.len() > 0 {
        let d = s.drop_last();
        assert forall|i: int| 0 <= i < d.len() implies f(#[trigger] d[i]) == g(d[i]) by {
            assert(d[i] == s[i]);
        }
        lemma_sum_same(d, f, g);
        assert(s.last() == s[s.len() - 1]);
    }
}

/// The count over two lists joined is the sum of the counts.
pub proof fn lemma_count_add<T>(a: Seq<T>, b: Seq<T>, p: spec_fn(T) -> bool)
    ensures
        count_if(a + b, p) == count_if(a, p) + count_if(b, p),
    decreases b.len(),
{
    if b.len() == 0 {
        assert(a + b == a);
    } else {
        lemma_count_add(a, b.drop_last(), p);
        assert((a + b).drop_last() == a + b.drop_last());
        assert((a + b).last() == b.last());
    }
}

/// Where a sum is above zero, some item contributes to it.
pub proof fn lemma_sum_positive<T>(s: Seq<T>, f: spec_fn(T) -> nat) -> (i: int)
    requires
        sum_of(s, f) > 0,
    ensures
        0 <= i < s.len(),
        f(s[i]) > 0,
    decreases s.len(),
{
    if f(s.last()) > 0 {
        s.len() - 1
    } else {
        let i = lemma_sum_positive(s.drop_last(), f);
        assert(s.drop_last()[i] == s[i]);
        i
    }
}

/// The count over a single item.
pub proof fn lemma_count_one<T>(x: T, p: spec_fn(T) -> bool)
    ensures
        count_if(seq![x], p) == if p(x) {
            1nat
        } else {
            0nat
        },
{
    assert(seq![x].drop_last().len() == 0);
    assert(count_if(seq![x].drop_last(), p) == 0);
    assert(seq![x].last() == x);
}

} // verus!
