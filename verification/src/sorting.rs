//! Sorting of vectors under a total preorder.

use vstd::prelude::*;
use vstd::relations::sorted_by;
use vstd::seq_lib::{to_multiset_insert, to_multiset_remove};

verus! {

/// `leq` compares any two values and is transitive.
pub open spec fn total_preorder<T>(leq: spec_fn(T, T) -> bool) -> bool {
    &&& forall|a: T, b: T| #[trigger] leq(a, b) || #[trigger] leq(b, a)
    &&& forall|a: T, b: T, c: T| #[trigger] leq(a, b) && #[trigger] leq(b, c) ==> leq(a, c)
}

/// `x` put into the list behind the last item that it does not come
/// before.
pub open spec fn insert_ranked<T>(list: Seq<T>, x: T, leq: spec_fn(T, T) -> bool) -> Seq<T>
    decreases list.len(),
{
    if list.len() == 0 || leq(list.last(), x) {
        list.push(x)
    } else {
        insert_ranked(list.drop_last(), x, leq).push(list.last())
    }
}

/// The items of the list in the order of `leq`, items that compare equal
/// in the order in which the list holds them.
pub open spec fn stable_sorted<T>(s: Seq<T>, leq: spec_fn(T, T) -> bool) -> Seq<T>
    decreases s.len(),
{
    if s.len() == 0 {
        s
    } else {
        insert_ranked(stable_sorted(s.drop_last(), leq), s.last(), leq)
    }
}

/// Where every item from position `j` on comes after `x` and the item
/// before does not, `x` is put in at `j`.
proof fn lemma_insert_ranked_at<T>(list: Seq<T>, x: T, leq: spec_fn(T, T) -> bool, j: int)
    requires
        0 <= j <= list.len(),
        forall|k: int| j <= k < list.len() ==> !leq(list[k], x),
        j > 0 ==> leq(list[j - 1], x),
    ensures
        insert_ranked(list, x, leq) == list.insert(j, x),
    decreases list.len(),
{
    if j == list.len() {
        assert(list.insert(j, x) =~= list.push(x));
    } else {
        let head = list.drop_last();
        assert forall|k: int| j <= k < head.len() implies !leq(head[k], x) by {
            assert(head[k] == list[k]);
        }
        if j > 0 {
            assert(head[j - 1] == list[j - 1]);
        }
        lemma_insert_ranked_at(head, x, leq, j);
        assert(!leq(list.last(), x));
        assert(head.insert(j, x).push(list.last()) =~= list.insert(j, x));
    }
}

/// Sorts `v` in place under `leq`. Elements that compare equal keep their
/// relative order.
pub fn sort_by<T, F: Fn(&T, &T) -> bool>(v: &mut Vec<T>, le: F, Ghost(leq): Ghost<spec_fn(T, T) -> bool>)
    requires
        forall|a: T, b: T| le.requires((&a, &b)),
        forall|a: T, b: T, r: bool| le.ensures((&a, &b), r) ==> r == leq(a, b),
        total_preorder(leq),
    ensures
        final(v)@.to_multiset() == old(v)@.to_multiset(),
        final(v)@.len() == old(v)@.len(),
        sorted_by(final(v)@, leq),
        final(v)@ == stable_sorted(old(v)@, leq),
{
    let n = v.len();
    let mut i: usize = 0;
    assert(v@.take(0) =~= stable_sorted(old(v)@.take(0), leq));
    while i < n
        invariant
            i <= n,
            n == v.len(),
            n == old(v)@.len(),
            v@.to_multiset() == old(v)@.to_multiset(),
            sorted_by(v@.take(i as int), leq),
            v@.take(i as int) == stable_sorted(old(v)@.take(i as int), leq),
            v@.skip(i as int) == old(v)@.skip(i as int),
            forall|a: T, b: T| le.requires((&a, &b)),
            forall|a: T, b: T, r: bool| le.ensures((&a, &b), r) ==> r == leq(a, b),
            total_preorder(leq),
        decreases n - i,
    {
        let mut j: usize = i;
        while j > 0 && !le(&v[j - 1], &v[i])
            invariant
                j <= i < n,
                n == v.len(),
                forall|k: int| j <= k < i ==> !leq(v@[k], v@[i as int]),
                forall|a: T, b: T| le.requires((&a, &b)),
                forall|a: T, b: T, r: bool| le.ensures((&a, &b), r) ==> r == leq(a, b),
            decreases j,
        {
            j -= 1;
        }
        let ghost before = v@;
        let x = v.remove(i);
        let ghost mid = v@;
        v.insert(j, x);
        proof {
            to_multiset_remove(before, i as int);
            to_multiset_insert(mid, j as int, x);
            assert(mid.to_multiset() == before.to_multiset().remove(x));
            assert(before.to_multiset().contains(x)) by {
                vstd::seq_lib::to_multiset_contains(before, x);
                assert(before[i as int] == x);
            }
            assert(v@.to_multiset() == mid.to_multiset().insert(x));
            assert(v@.to_multiset() =~= before.to_multiset());
            let after = v@.take(i + 1);
            let prefix = before.take(i as int);
            assert(x == old(v)@[i as int]) by {
                assert(before.skip(i as int)[0] == before[i as int]);
                assert(old(v)@.skip(i as int)[0] == old(v)@[i as int]);
            }
            assert forall|k: int| j <= k < prefix.len() implies !leq(prefix[k], x) by {
                assert(prefix[k] == before[k]);
            }
            if j > 0 {
                assert(prefix[j - 1] == before[j - 1]);
            }
            lemma_insert_ranked_at(prefix, x, leq, j as int);
            assert(after =~= prefix.insert(j as int, x));
            assert(old(v)@.take(i + 1).drop_last() == old(v)@.take(i as int));
            assert(old(v)@.take(i + 1).last() == x);
            assert(v@.skip(i + 1) =~= old(v)@.skip(i + 1)) by {
                let rest = v@.skip(i + 1);
                assert forall|k: int| 0 <= k < rest.len() implies #[trigger] rest[k]
                    == old(v)@.skip(i + 1)[k] by {
                    assert(v@[i + 1 + k] == before[i + 1 + k]);
                    assert(before.skip(i as int)[k + 1] == old(v)@.skip(i as int)[k + 1]);
                }
            }
            assert forall|a: int, b: int| 0 <= a < b < after.len() implies leq(
                after[a],
                after[b],
            ) by {
                let pre = before.take(i as int);
                if b < j {
                    assert(after[a] == pre[a] && after[b] == pre[b]);
                } else if b == j {
                    assert(after[b] == x);
                    assert(after[a] == pre[a]);
                    assert(leq(before[j - 1], x));
                    if a < j - 1 {
                        assert(leq(pre[a], pre[j - 1]));
                    }
                } else if a < j {
                    assert(after[a] == pre[a] && after[b] == pre[b - 1]);
                    if a < b - 1 {
                    } else {
                        assert(leq(before[j - 1], x));
                        assert(!leq(before[b - 1], x));
                    }
                } else if a == j {
                    assert(after[a] == x && after[b] == before[b - 1]);
                    assert(!leq(before[b - 1], x));
                } else {
                    assert(after[a] == pre[a - 1] && after[b] == pre[b - 1]);
                }
            }
        }
        i += 1;
    }
    assert(v@.take(n as int) == v@);
    assert(old(v)@.take(n as int) == old(v)@);
}

/// A rearrangement holds the same items: each of its items stands
/// somewhere in the given sequence and the other way round, and it
/// repeats none where the given sequence repeats none.
pub proof fn lemma_rearranged<T>(a: Seq<T>, b: Seq<T>)
    requires
        a.to_multiset() == b.to_multiset(),
    ensures
        a.len() == b.len(),
        forall|k: int| 0 <= k < b.len() ==> a.contains(#[trigger] b[k]),
        forall|k: int| 0 <= k < a.len() ==> b.contains(#[trigger] a[k]),
        a.no_duplicates() ==> b.no_duplicates(),
{
    broadcast use vstd::seq_lib::group_to_multiset_ensures;

    vstd::seq_lib::to_multiset_len(a);
    vstd::seq_lib::to_multiset_len(b);
    assert forall|k: int| 0 <= k < b.len() implies a.contains(#[trigger] b[k]) by {
        assert(b.to_multiset().count(b[k]) > 0);
    }
    assert forall|k: int| 0 <= k < a.len() implies b.contains(#[trigger] a[k]) by {
        assert(a.to_multiset().count(a[k]) > 0);
    }
    if a.no_duplicates() {
        a.lemma_multiset_has_no_duplicates();
        b.lemma_multiset_has_no_duplicates_conv();
    }
}

/// `out` holds the items of `given`, each as often, in the order of `leq`,
/// items that compare equal in the order of `given`.
pub open spec fn is_sorted_rearrangement<T>(out: Seq<T>, given: Seq<T>, leq: spec_fn(T, T) -> bool)
    -> bool {
    out == stable_sorted(given, leq) && out.to_multiset() == given.to_multiset() && sorted_by(
        out,
        leq,
    )
}

/// Mapping the items commutes with putting one in by rank, where the
/// order of the items is that of what they are mapped to.
pub proof fn lemma_insert_ranked_map<A, B>(
    list: Seq<A>,
    x: A,
    f: spec_fn(A) -> B,
    leq_a: spec_fn(A, A) -> bool,
    leq_b: spec_fn(B, B) -> bool,
)
    requires
        forall|p: A, q: A| #[trigger] leq_a(p, q) == leq_b(f(p), f(q)),
    ensures
        insert_ranked(list, x, leq_a).map_values(f) == insert_ranked(
            list.map_values(f),
            f(x),
            leq_b,
        ),
    decreases list.len(),
{
    let mapped = list.map_values(f);
    if list.len() == 0 {
        assert(list.push(x).map_values(f) =~= mapped.push(f(x)));
    } else {
        assert(mapped.last() == f(list.last()));
        assert(leq_a(list.last(), x) == leq_b(f(list.last()), f(x)));
        if leq_a(list.last(), x) {
            assert(list.push(x).map_values(f) =~= mapped.push(f(x)));
        } else {
            lemma_insert_ranked_map(list.drop_last(), x, f, leq_a, leq_b);
            assert(list.drop_last().map_values(f) =~= mapped.drop_last());
            assert(insert_ranked(list.drop_last(), x, leq_a).push(list.last()).map_values(f)
                =~= insert_ranked(list.drop_last(), x, leq_a).map_values(f).push(f(list.last())));
        }
    }
}

/// Mapping the items commutes with sorting them, where the order of the
/// items is that of what they are mapped to.
pub proof fn lemma_stable_sorted_map<A, B>(
    s: Seq<A>,
    f: spec_fn(A) -> B,
    leq_a: spec_fn(A, A) -> bool,
    leq_b: spec_fn(B, B) -> bool,
)
    requires
        forall|p: A, q: A| #[trigger] leq_a(p, q) == leq_b(f(p), f(q)),
    ensures
        stable_sorted(s, leq_a).map_values(f) == stable_sorted(s.map_values(f), leq_b),
    decreases s.len(),
{
    if s.len() == 0 {
        assert(s.map_values(f) =~= Seq::<B>::empty());
        assert(stable_sorted(s, leq_a).map_values(f) =~= Seq::<B>::empty());
    } else {
        lemma_stable_sorted_map(s.drop_last(), f, leq_a, leq_b);
        lemma_insert_ranked_map(stable_sorted(s.drop_last(), leq_a), s.last(), f, leq_a, leq_b);
        assert(s.map_values(f).drop_last() =~= s.drop_last().map_values(f));
        assert(s.map_values(f).last() == f(s.last()));
    }
}

} // verus!
