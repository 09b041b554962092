//! The co-signature network: who signed amendments together with whom.

use vstd::prelude::*;
use crate::aggregator::{among_cosigners, authored_by, is_author, is_cosigner};
use crate::counting::{
    count_if, lemma_count_same, lemma_count_step, lemma_sum_bound, lemma_sum_ge_item,
    lemma_sum_same, lemma_sum_split, lemma_sum_step, sum_of,
};
use crate::dates::Date;
use crate::models::{Amendement, CosignGroupBucket, CosignNetworkStats, CosignPeer, Depute, TopCosignataire};
use crate::sorting::{lemma_rearranged, sort_by, total_preorder};
use crate::text::{
    clone_opt, lemma_lex_total, lemma_lex_transitive, lemma_opt_lex_order, lex_lt, opt_eq,
    opt_lex_lt, opt_str_lt, opt_text, str_lt,
};
use vstd::relations::sorted_by;

verus! {

/// A period and whether undated amendments count in it.
#[derive(Debug, Clone, Copy)]
pub struct PeriodBounds {
    pub start: Date,
    pub end: Date,
    pub include_undated: bool,
}

/// The representative is the author or one of the co-signers.
pub open spec fn signs(a: Amendement, id: Seq<char>) -> bool {
    authored_by(a, id) || among_cosigners(a, id)
}

/// A dated amendment counts when its date lies in the period, an undated
/// one when the period admits undated amendments.
pub open spec fn in_period(a: Amendement, p: PeriodBounds) -> bool {
    match a.date {
        Some(d) => p.start.day() <= d.day() <= p.end.day(),
        None => p.include_undated,
    }
}

/// The counted amendments that both representatives signed.
pub open spec fn signed_together(x: Seq<char>, y: Seq<char>, p: PeriodBounds) -> spec_fn(
    Amendement,
) -> bool {
    |a: Amendement| in_period(a, p) && signs(a, x) && signs(a, y)
}

/// How many counted amendments two different representatives signed
/// together.
pub open spec fn pair_count(amendements: Seq<Amendement>, x: Seq<char>, y: Seq<char>, p: PeriodBounds)
    -> nat {
    if x == y {
        0
    } else {
        count_if(amendements, signed_together(x, y, p))
    }
}

/// Co-signing is symmetric: each of two representatives has signed as many
/// amendments with the other as the other with them.
pub proof fn lemma_pair_count_symmetric(
    amendements: Seq<Amendement>,
    x: Seq<char>,
    y: Seq<char>,
    p: PeriodBounds,
)
    ensures
        pair_count(amendements, x, y, p) == pair_count(amendements, y, x, p),
{
    lemma_count_same(amendements, signed_together(x, y, p), signed_together(y, x, p));
}

/// The ids of the representatives, in their order.
pub open spec fn ids_of(deputes: Seq<Depute>) -> Seq<Seq<char>> {
    Seq::new(deputes.len(), |j: int| deputes[j].id@)
}

/// No two representatives share an id.
pub open spec fn distinct_ids(deputes: Seq<Depute>) -> bool {
    forall|a: int, b: int|
        0 <= a < b < deputes.len() ==> (#[trigger] deputes[a]).id@ != (#[trigger] deputes[b]).id@
}

/// The numbers of amendments that representative `i` signed together with
/// each of the representatives.
pub open spec fn pair_row(deputes: Seq<Depute>, amendements: Seq<Amendement>, p: PeriodBounds, i: int)
    -> Seq<nat> {
    Seq::new(deputes.len(), |j: int| pair_count(amendements, deputes[i].id@, deputes[j].id@, p))
}

/// The rows of two representatives agree on each other: what the row of
/// the one says of the other, the row of the other says of the one.
pub proof fn lemma_pair_rows_symmetric(
    deputes: Seq<Depute>,
    amendements: Seq<Amendement>,
    p: PeriodBounds,
    i: int,
    j: int,
)
    requires
        0 <= i < deputes.len(),
        0 <= j < deputes.len(),
    ensures
        pair_row(deputes, amendements, p, i)[j] == pair_row(deputes, amendements, p, j)[i],
{
    lemma_pair_count_symmetric(amendements, deputes[i].id@, deputes[j].id@, p);
}

/// Two different representatives who signed one counted amendment
/// together are counted for each other, at least once and equally often.
pub proof fn lemma_cosigners_count_each_other(
    amendements: Seq<Amendement>,
    k: int,
    x: Seq<char>,
    y: Seq<char>,
    p: PeriodBounds,
)
    requires
        0 <= k < amendements.len(),
        x != y,
        in_period(amendements[k], p),
        signs(amendements[k], x),
        signs(amendements[k], y),
    ensures
        pair_count(amendements, x, y, p) == pair_count(amendements, y, x, p),
        pair_count(amendements, x, y, p) >= 1,
{
    lemma_pair_count_symmetric(amendements, x, y, p);
    crate::counting::lemma_count_zero(amendements, signed_together(x, y, p));
    assert(signed_together(x, y, p)(amendements[k]));
}

pub fn is_in_period(a: &Amendement, p: &PeriodBounds) -> (r: bool)
    ensures
        r == in_period(*a, *p),
{
    match a.date {
        Some(d) => p.start.not_after(&d) && d.not_after(&p.end),
        None => p.include_undated,
    }
}

pub fn is_signer(a: &Amendement, id: &String) -> (r: bool)
    ensures
        r == signs(*a, id@),
{
    is_author(a, id) || is_cosigner(a, id)
}

/// Counts, for representative `i`, the amendments signed together with each
/// of the others.
pub fn cosign_row(i: usize, deputes: &Vec<Depute>, amendements: &Vec<Amendement>, p: &PeriodBounds)
    -> (row: Vec<u32>)
    requires
        i < deputes.len(),
        amendements.len() <= u32::MAX,
    ensures
        row@.len() == deputes@.len(),
        forall|j: int|
            0 <= j < deputes@.len() ==> (#[trigger] row@[j]) == pair_row(deputes@, amendements@, *p, i as int)[j],
        forall|j: int| 0 <= j < deputes@.len() ==> (#[trigger] row@[j]) <= amendements@.len(),
{
    let n = deputes.len();
    let id = &deputes[i].id;
    let mut row: Vec<u32> = Vec::new();
    let mut j: usize = 0;
    while j < n
        invariant
            j <= n,
            row@.len() == j,
            forall|x: int| 0 <= x < j ==> (#[trigger] row@[x]) == 0,
        decreases n - j,
    {
        row.push(0);
        j += 1;
    }
    let mut k: usize = 0;
    while k < amendements.len()
        invariant
            k <= amendements.len(),
            amendements.len() <= u32::MAX,
            n == deputes@.len(),
            i < n,
            id@ == deputes@[i as int].id@,
            row@.len() == n,
            forall|x: int|
                0 <= x < n ==> (#[trigger] row@[x]) == pair_count(
                    amendements@.take(k as int),
                    id@,
                    deputes@[x].id@,
                    *p,
                ),
            forall|x: int| 0 <= x < n ==> (#[trigger] row@[x]) <= k,
        decreases amendements.len() - k,
    {
        let a = &amendements[k];
        proof {
            assert forall|x: int| 0 <= x < n implies pair_count(
                amendements@.take(k + 1),
                id@,
                deputes@[x].id@,
                *p,
            ) == pair_count(amendements@.take(k as int), id@, (#[trigger] deputes@[x]).id@, *p)
                + if id@ != deputes@[x].id@ && signed_together(id@, deputes@[x].id@, *p)(
                amendements@[k as int],
            ) {
                1nat
            } else {
                0nat
            } by {
                lemma_count_step(
                    amendements@,
                    k as int,
                    signed_together(id@, deputes@[x].id@, *p),
                );
            }
        }
        if is_in_period(a, p) && is_signer(a, id) {
            let ghost before = row@;
            let mut j: usize = 0;
            while j < n
                invariant
                    j <= n,
                    n == deputes@.len(),
                    row@.len() == n,
                    before.len() == n,
                    k < amendements.len() <= u32::MAX,
                    *a == amendements@[k as int],
                    in_period(*a, *p),
                    signs(*a, id@),
                    forall|x: int| 0 <= x < n ==> (#[trigger] before[x]) <= k,
                    forall|x: int| j <= x < n ==> (#[trigger] row@[x]) == before[x],
                    forall|x: int|
                        0 <= x < j ==> (#[trigger] row@[x]) == before[x] + if id@
                            != deputes@[x].id@ && signs(*a, deputes@[x].id@) {
                            1nat
                        } else {
                            0nat
                        },
                decreases n - j,
            {
                let other = &deputes[j].id;
                if !(*other == *id) && is_signer(a, other) {
                    let c = row[j];
                    row.set(j, c + 1);
                }
                j += 1;
            }
        }
        k += 1;
    }
    assert(amendements@.take(amendements.len() as int) == amendements@);
    row
}

/// The positions `0 .. n`.
pub open spec fn indices(n: nat) -> Seq<int> {
    Seq::new(n, |j: int| j)
}

/// The count of row position `j` where `member` holds of it, else zero.
pub open spec fn weight_of(row: Seq<u32>, member: spec_fn(int) -> bool) -> spec_fn(int) -> nat {
    |j: int|
        if 0 <= j < row.len() && member(j) {
            row[j] as nat
        } else {
            0nat
        }
}

/// The sum of the counts of the row positions of which `member` holds.
pub open spec fn member_sum(row: Seq<u32>, member: spec_fn(int) -> bool) -> nat {
    sum_of(indices(row.len()), weight_of(row, member))
}

/// The number of row positions with a count above zero of which `member`
/// holds.
pub open spec fn member_partners(row: Seq<u32>, member: spec_fn(int) -> bool) -> nat {
    count_if(indices(row.len()), |j: int| 0 <= j < row.len() && member(j) && row[j] > 0)
}

pub open spec fn flagged(flags: Seq<bool>) -> spec_fn(int) -> bool {
    |j: int| 0 <= j < flags.len() && flags[j]
}

pub open spec fn everyone() -> spec_fn(int) -> bool {
    |j: int| true
}

/// Sums the counts at the flagged positions.
pub(crate) fn sum_flagged(row: &Vec<u32>, flags: &Vec<bool>, Ghost(bound): Ghost<nat>) -> (r: u32)
    requires
        flags@.len() == row@.len(),
        forall|j: int| 0 <= j < row@.len() ==> (#[trigger] row@[j]) <= bound,
        row@.len() * bound <= u32::MAX,
    ensures
        r == member_sum(row@, flagged(flags@)),
{
    let n = row.len();
    let ghost w = weight_of(row@, flagged(flags@));
    let ghost idx = indices(n as nat);
    let mut r: u32 = 0;
    let mut j: usize = 0;
    while j < n
        invariant
            j <= n,
            n == row@.len(),
            flags@.len() == n,
            idx == indices(n as nat),
            w == weight_of(row@, flagged(flags@)),
            r == sum_of(idx.take(j as int), w),
            forall|x: int| 0 <= x < row@.len() ==> (#[trigger] row@[x]) <= bound,
            row@.len() * bound <= u32::MAX,
        decreases n - j,
    {
        proof {
            lemma_sum_step(idx, j as int, w);
            assert forall|x: int| 0 <= x < idx.take(j + 1).len() implies w(
                #[trigger] idx.take(j + 1)[x],
            ) <= bound by {}
            lemma_sum_bound(idx.take(j + 1), w, bound);
            assert((j + 1) * bound <= n * bound) by (nonlinear_arith)
                requires
                    j + 1 <= n,
            ;
        }
        if flags[j] {
            r = r + row[j];
        }
        j += 1;
    }
    assert(idx.take(n as int) == idx);
    r
}

/// The order of co-signature partners: the higher count first, and among
/// equal counts the smaller id.
pub open spec fn rank_lt(ids: Seq<Seq<char>>, row: Seq<u32>, a: int, b: int) -> bool {
    row[a] > row[b] || (row[a] == row[b] && lex_lt(ids[a], ids[b]))
}

/// The order in which positions are sorted: those of the row by rank, ties
/// by position, and any other number after them.
pub open spec fn index_leq(ids: Seq<Seq<char>>, row: Seq<u32>, a: usize, b: usize) -> bool {
    if a < row.len() && b < row.len() {
        row[a as int] > row[b as int] || (row[a as int] == row[b as int] && (lex_lt(
            ids[a as int],
            ids[b as int],
        ) || (ids[a as int] == ids[b as int] && a <= b)))
    } else if a < row.len() {
        true
    } else if b < row.len() {
        false
    } else {
        a <= b
    }
}

pub open spec fn index_order(ids: Seq<Seq<char>>, row: Seq<u32>) -> spec_fn(usize, usize) -> bool {
    |a: usize, b: usize| index_leq(ids, row, a, b)
}

proof fn lemma_index_order(ids: Seq<Seq<char>>, row: Seq<u32>)
    ensures
        total_preorder(index_order(ids, row)),
{
    let leq = index_order(ids, row);
    assert forall|a: usize, b: usize| #[trigger] leq(a, b) || #[trigger] leq(b, a) by {
        if a < row.len() && b < row.len() {
            lemma_lex_total(ids[a as int], ids[b as int]);
        }
    }
    assert forall|a: usize, b: usize, c: usize| #[trigger] leq(a, b) && #[trigger] leq(
        b,
        c,
    ) implies leq(a, c) by {
        if a < row.len() && b < row.len() && c < row.len() {
            lemma_lex_total(ids[a as int], ids[b as int]);
            lemma_lex_total(ids[b as int], ids[c as int]);
            lemma_lex_total(ids[a as int], ids[c as int]);
            if lex_lt(ids[a as int], ids[b as int]) && lex_lt(ids[b as int], ids[c as int]) {
                lemma_lex_transitive(ids[a as int], ids[b as int], ids[c as int]);
            }
        }
    }
}

/// `order` lists every position with a count above zero once, in the order
/// of rank.
pub open spec fn is_ranking(order: Seq<usize>, ids: Seq<Seq<char>>, row: Seq<u32>) -> bool {
    &&& forall|k: int| 0 <= k < order.len() ==> (#[trigger] order[k]) < row.len() && row[order[k] as int] > 0
    &&& forall|a: int, b: int|
        0 <= a < b < order.len() ==> rank_lt(ids, row, (#[trigger] order[a]) as int, (#[trigger] order[b]) as int)
    &&& forall|j: int|
        0 <= j < row.len() && (#[trigger] row[j]) > 0 ==> exists|k: int|
            0 <= k < order.len() && (#[trigger] order[k]) == j
}

/// `list` holds the first `cap` positions, in the order of rank, among
/// those with a count above zero of which `member` holds.
pub open spec fn is_top_ranked(
    list: Seq<usize>,
    cap: nat,
    ids: Seq<Seq<char>>,
    row: Seq<u32>,
    member: spec_fn(int) -> bool,
) -> bool {
    &&& list.len() <= cap
    &&& forall|k: int|
        0 <= k < list.len() ==> (#[trigger] list[k]) < row.len() && row[list[k] as int] > 0
            && member(list[k] as int)
    &&& forall|a: int, b: int|
        0 <= a < b < list.len() ==> rank_lt(ids, row, (#[trigger] list[a]) as int, (#[trigger] list[b]) as int)
    &&& forall|j: int|
        0 <= j < row.len() && (#[trigger] row[j]) > 0 && member(j) ==> (exists|k: int|
            0 <= k < list.len() && (#[trigger] list[k]) == j) || (list.len() == cap && cap > 0
            && rank_lt(ids, row, list.last() as int, j))
}

fn index_not_after(deputes: &Vec<Depute>, row: &Vec<u32>, a: usize, b: usize) -> (r: bool)
    requires
        row@.len() == deputes@.len(),
    ensures
        r == index_leq(ids_of(deputes@), row@, a, b),
{
    let n = row.len();
    if a < n && b < n {
        proof {
            lemma_lex_total(deputes@[a as int].id@, deputes@[b as int].id@);
        }
        if row[a] != row[b] {
            row[a] > row[b]
        } else if str_lt(deputes[a].id.as_str(), deputes[b].id.as_str()) {
            true
        } else if str_lt(deputes[b].id.as_str(), deputes[a].id.as_str()) {
            false
        } else {
            a <= b
        }
    } else if a < n {
        true
    } else if b < n {
        false
    } else {
        a <= b
    }
}

/// The partners of a representative in the order of rank.
pub(crate) fn ranked_partners(deputes: &Vec<Depute>, row: &Vec<u32>) -> (order: Vec<usize>)
    requires
        row@.len() == deputes@.len(),
        distinct_ids(deputes@),
    ensures
        is_ranking(order@, ids_of(deputes@), row@),
        order@.len() <= row@.len(),
{
    let n = row.len();
    let ghost ids = ids_of(deputes@);
    let mut order: Vec<usize> = Vec::new();
    let mut j: usize = 0;
    while j < n
        invariant
            j <= n,
            n == row@.len(),
            order@.len() <= j,
            forall|k: int| 0 <= k < order@.len() ==> (#[trigger] order@[k]) < j && row@[order@[k] as int] > 0,
            forall|a: int, b: int| 0 <= a < b < order@.len() ==> (#[trigger] order@[a]) < (#[trigger] order@[b]),
            forall|x: int|
                0 <= x < j && (#[trigger] row@[x]) > 0 ==> exists|k: int|
                    0 <= k < order@.len() && (#[trigger] order@[k]) == x,
        decreases n - j,
    {
        if row[j] > 0 {
            let ghost before = order@;
            order.push(j);
            proof {
                assert forall|x: int| 0 <= x < j + 1 && (#[trigger] row@[x]) > 0 implies exists|k: int|
                    0 <= k < order@.len() && (#[trigger] order@[k]) == x by {
                    if x < j {
                        let k = choose|k: int| 0 <= k < before.len() && (#[trigger] before[k]) == x;
                        assert(order@[k] == x);
                    } else {
                        assert(order@[before.len() as int] == x);
                    }
                }
            }
        }
        j += 1;
    }
    let ghost unsorted = order@;
    proof {
        lemma_index_order(ids, row@);
    }
    let le = |a: &usize, b: &usize| -> (r: bool)
        requires
            row@.len() == deputes@.len(),
        ensures
            r == index_leq(ids_of(deputes@), row@, *a, *b),
        { index_not_after(deputes, row, *a, *b) };
    sort_by(&mut order, le, Ghost(index_order(ids, row@)));
    proof {
        broadcast use vstd::seq_lib::group_to_multiset_ensures;

        let sorted = order@;
        assert(unsorted.no_duplicates());
        unsorted.lemma_multiset_has_no_duplicates();
        sorted.lemma_multiset_has_no_duplicates_conv();
        assert forall|k: int| 0 <= k < sorted.len() implies (#[trigger] sorted[k]) < row@.len()
            && row@[sorted[k] as int] > 0 by {
            assert(sorted.to_multiset().count(sorted[k]) > 0);
            assert(unsorted.contains(sorted[k]));
        }
        assert forall|a: int, b: int| 0 <= a < b < sorted.len() implies rank_lt(
            ids,
            row@,
            (#[trigger] sorted[a]) as int,
            (#[trigger] sorted[b]) as int,
        ) by {
            assert(index_order(ids, row@)(sorted[a], sorted[b]));
            assert(sorted[a] != sorted[b]);
            let x = sorted[a] as int;
            let y = sorted[b] as int;
            if x < y {
                assert(deputes@[x].id@ != deputes@[y].id@);
            } else {
                assert(deputes@[y].id@ != deputes@[x].id@);
            }
        }
        assert forall|j: int| 0 <= j < row@.len() && (#[trigger] row@[j]) > 0 implies exists|k: int|
            0 <= k < sorted.len() && (#[trigger] sorted[k]) == j by {
            let x = choose|x: int| 0 <= x < unsorted.len() && (#[trigger] unsorted[x]) == j;
            assert(unsorted.to_multiset().count(unsorted[x]) > 0);
            assert(sorted.contains(unsorted[x]));
            let k = choose|k: int| 0 <= k < sorted.len() && sorted[k] == unsorted[x];
            assert(sorted[k] == j);
        }
    }
    order
}

/// The first `cap` flagged positions of a ranking.
pub(crate) fn take_ranked(order: &Vec<usize>, flags: &Vec<bool>, cap: usize, Ghost(ids): Ghost<Seq<Seq<char>>>, Ghost(row): Ghost<Seq<u32>>) -> (list: Vec<usize>)
    requires
        is_ranking(order@, ids, row),
        flags@.len() == row.len(),
        cap > 0,
    ensures
        is_top_ranked(list@, cap as nat, ids, row, flagged(flags@)),
{
    let mut list: Vec<usize> = Vec::new();
    let ghost mut pos: Seq<int> = Seq::empty();
    let mut t: usize = 0;
    while t < order.len() && list.len() < cap
        invariant
            t <= order@.len(),
            is_ranking(order@, ids, row),
            flags@.len() == row.len(),
            list@.len() <= cap,
            pos.len() == list@.len(),
            forall|k: int| 0 <= k < pos.len() ==> 0 <= (#[trigger] pos[k]) < t && list@[k] == order@[pos[k]] && flags@[list@[k] as int],
            forall|a: int, b: int| 0 <= a < b < pos.len() ==> (#[trigger] pos[a]) < (#[trigger] pos[b]),
            forall|x: int|
                0 <= x < t && flags@[(#[trigger] order@[x]) as int] ==> exists|k: int|
                    0 <= k < list@.len() && (#[trigger] list@[k]) == order@[x],
        decreases order@.len() - t,
    {
        let j = order[t];
        if flags[j] {
            let ghost before = list@;
            list.push(j);
            proof {
                pos = pos.push(t as int);
                assert forall|x: int| 0 <= x < t + 1 && flags@[(#[trigger] order@[x]) as int] implies exists|k: int|
                    0 <= k < list@.len() && (#[trigger] list@[k]) == order@[x] by {
                    if x < t {
                        let k = choose|k: int| 0 <= k < before.len() && (#[trigger] before[k]) == order@[x];
                        assert(list@[k] == order@[x]);
                    } else {
                        assert(list@[before.len() as int] == order@[x]);
                    }
                }
            }
        }
        t += 1;
    }
    proof {
        assert forall|k: int| 0 <= k < list@.len() implies (#[trigger] list@[k]) < row.len()
            && row[list@[k] as int] > 0 && flagged(flags@)(list@[k] as int) by {
            assert(0 <= pos[k] < t);
            assert(list@[k] == order@[pos[k]]);
        }
        assert forall|a: int, b: int| 0 <= a < b < list@.len() implies rank_lt(
            ids,
            row,
            (#[trigger] list@[a]) as int,
            (#[trigger] list@[b]) as int,
        ) by {
            assert(pos[a] < pos[b]);
            assert(list@[a] == order@[pos[a]] && list@[b] == order@[pos[b]]);
        }
        assert forall|j: int| 0 <= j < row.len() && (#[trigger] row[j]) > 0 && flagged(flags@)(j) implies (exists|k: int|
            0 <= k < list@.len() && (#[trigger] list@[k]) == j) || (list@.len() == cap && cap > 0
            && rank_lt(ids, row, list@.last() as int, j)) by {
            let x = choose|x: int| 0 <= x < order@.len() && (#[trigger] order@[x]) == j;
            if x < t {
            } else {
                let last = list@.len() - 1;
                assert(list@.len() == cap);
                assert(pos[last] < t);
                assert(list@[last] == order@[pos[last]]);
                assert(rank_lt(ids, row, order@[pos[last]] as int, order@[x] as int));
            }
        }
    }
    list
}

/// How many partners the overall list of a representative shows.
pub const COSIGN_TOP_LIMIT: usize = 10;

/// How many partners of the own group are shown.
pub const COSIGN_IN_GROUP_UI_LIMIT: usize = 12;

/// How many partners are shown for each other group.
pub const COSIGN_OUT_GROUP_MEMBERS_UI_LIMIT: usize = 8;

/// Both representatives declare a group, and the same one.
pub open spec fn same_group(a: Depute, b: Depute) -> bool {
    a.groupe_abrev is Some && b.groupe_abrev is Some && opt_text(a.groupe_abrev) == opt_text(
        b.groupe_abrev,
    )
}

/// The group a partner is filed under: abbreviation and name.
pub open spec fn group_key(d: Depute) -> (Option<Seq<char>>, Option<Seq<char>>) {
    (opt_text(d.groupe_abrev), opt_text(d.groupe_nom))
}

pub open spec fn in_group_of(deputes: Seq<Depute>, i: int) -> spec_fn(int) -> bool {
    |j: int| 0 <= j < deputes.len() && same_group(deputes[i], deputes[j])
}

pub open spec fn out_group_of(deputes: Seq<Depute>, i: int) -> spec_fn(int) -> bool {
    |j: int| 0 <= j < deputes.len() && !same_group(deputes[i], deputes[j])
}

/// The representatives outside the group of `i` that are filed under `key`.
pub open spec fn bucket_of(
    deputes: Seq<Depute>,
    i: int,
    key: (Option<Seq<char>>, Option<Seq<char>>),
) -> spec_fn(int) -> bool {
    |j: int|
        0 <= j < deputes.len() && !same_group(deputes[i], deputes[j]) && group_key(deputes[j])
            == key
}

pub open spec fn peer_matches(p: CosignPeer, d: Depute, count: u32) -> bool {
    &&& p.deputy_id@ == d.id@
    &&& p.nom@ == d.nom@
    &&& p.prenom@ == d.prenom@
    &&& opt_text(p.groupe_abrev) == opt_text(d.groupe_abrev)
    &&& opt_text(p.groupe_nom) == opt_text(d.groupe_nom)
    &&& p.count == count
}

pub open spec fn top_matches(p: TopCosignataire, d: Depute, count: u32) -> bool {
    &&& p.deputy_id@ == d.id@
    &&& p.nom@ == d.nom@
    &&& p.prenom@ == d.prenom@
    &&& opt_text(p.groupe_abrev) == opt_text(d.groupe_abrev)
    &&& p.co_signed_count == count
}

/// The peers are the records of the listed representatives, in order.
pub open spec fn peers_match(
    peers: Seq<CosignPeer>,
    list: Seq<usize>,
    deputes: Seq<Depute>,
    row: Seq<u32>,
) -> bool {
    &&& peers.len() == list.len()
    &&& forall|k: int|
        0 <= k < list.len() ==> (#[trigger] list[k]) < deputes.len() && list[k] < row.len()
            && peer_matches(peers[k], deputes[list[k] as int], row[list[k] as int])
}

pub open spec fn tops_match(
    tops: Seq<TopCosignataire>,
    list: Seq<usize>,
    deputes: Seq<Depute>,
    row: Seq<u32>,
) -> bool {
    &&& tops.len() == list.len()
    &&& forall|k: int|
        0 <= k < list.len() ==> (#[trigger] list[k]) < deputes.len() && list[k] < row.len()
            && top_matches(tops[k], deputes[list[k] as int], row[list[k] as int])
}

/// The peers are the first `cap`, in the order of rank, of the partners of
/// which `member` holds.
pub open spec fn is_top_peers(
    peers: Seq<CosignPeer>,
    cap: nat,
    deputes: Seq<Depute>,
    row: Seq<u32>,
    member: spec_fn(int) -> bool,
) -> bool {
    exists|list: Seq<usize>| #[trigger]
        is_top_ranked(list, cap, ids_of(deputes), row, member) && peers_match(
            peers,
            list,
            deputes,
            row,
        )
}

pub open spec fn is_top_cosignataires(
    tops: Seq<TopCosignataire>,
    deputes: Seq<Depute>,
    row: Seq<u32>,
) -> bool {
    exists|list: Seq<usize>| #[trigger]
        is_top_ranked(list, COSIGN_TOP_LIMIT as nat, ids_of(deputes), row, everyone())
            && tops_match(tops, list, deputes, row)
}

pub open spec fn bucket_key(b: CosignGroupBucket) -> (Option<Seq<char>>, Option<Seq<char>>) {
    (opt_text(b.groupe_abrev), opt_text(b.groupe_nom))
}

/// The bucket holds the total of the partners filed under its group and the
/// first eight of them.
pub open spec fn is_bucket(b: CosignGroupBucket, deputes: Seq<Depute>, row: Seq<u32>, i: int)
    -> bool {
    &&& b.count_total == member_sum(row, bucket_of(deputes, i, bucket_key(b)))
    &&& b.count_total > 0
    &&& is_top_peers(
        b.members@,
        COSIGN_OUT_GROUP_MEMBERS_UI_LIMIT as nat,
        deputes,
        row,
        bucket_of(deputes, i, bucket_key(b)),
    )
}

/// The order of the buckets: the higher total first, then by abbreviation,
/// then by name.
pub open spec fn bucket_leq(a: CosignGroupBucket, b: CosignGroupBucket) -> bool {
    a.count_total > b.count_total || (a.count_total == b.count_total && (opt_lex_lt(
        bucket_key(a).0,
        bucket_key(b).0,
    ) || (bucket_key(a).0 == bucket_key(b).0 && (opt_lex_lt(bucket_key(a).1, bucket_key(b).1)
        || bucket_key(a).1 == bucket_key(b).1))))
}

pub open spec fn bucket_order() -> spec_fn(CosignGroupBucket, CosignGroupBucket) -> bool {
    |a: CosignGroupBucket, b: CosignGroupBucket| bucket_leq(a, b)
}

/// The buckets hold one bucket for each group with a partner outside the
/// group of `i`.
pub open spec fn are_buckets(
    buckets: Seq<CosignGroupBucket>,
    deputes: Seq<Depute>,
    row: Seq<u32>,
    i: int,
    upto: int,
) -> bool {
    &&& forall|k: int| 0 <= k < buckets.len() ==> is_bucket(#[trigger] buckets[k], deputes, row, i)
    &&& forall|a: int, b: int|
        0 <= a < b < buckets.len() ==> bucket_key(#[trigger] buckets[a]) != bucket_key(
            #[trigger] buckets[b],
        )
    &&& forall|j: int|
        0 <= j < upto && (#[trigger] row[j]) > 0 && !same_group(deputes[i], deputes[j])
            ==> exists|k: int|
            0 <= k < buckets.len() && bucket_key(#[trigger] buckets[k]) == group_key(deputes[j])
}

/// The network figures of representative `i` for the counts of `row`.
pub open spec fn is_network(net: CosignNetworkStats, deputes: Seq<Depute>, row: Seq<u32>, i: int)
    -> bool {
    &&& net.in_group_count == member_sum(row, in_group_of(deputes, i))
    &&& net.out_group_count == member_sum(row, out_group_of(deputes, i))
    &&& net.total_cosignatures == member_sum(row, everyone())
    &&& net.total_cosignatures == net.in_group_count + net.out_group_count
    &&& net.unique_cosignataires == member_partners(row, everyone())
    &&& is_top_peers(
        net.in_group@,
        COSIGN_IN_GROUP_UI_LIMIT as nat,
        deputes,
        row,
        in_group_of(deputes, i),
    )
    &&& are_buckets(net.out_group_groups@, deputes, row, i, row.len() as int)
    &&& sorted_by(net.out_group_groups@, bucket_order())
}

/// Predicates that agree on the positions of the row select the same.
pub proof fn lemma_same_member(
    row: Seq<u32>,
    ids: Seq<Seq<char>>,
    m1: spec_fn(int) -> bool,
    m2: spec_fn(int) -> bool,
)
    requires
        forall|j: int| 0 <= j < row.len() ==> #[trigger] m1(j) == m2(j),
    ensures
        member_sum(row, m1) == member_sum(row, m2),
        member_partners(row, m1) == member_partners(row, m2),
        forall|list: Seq<usize>, cap: nat|
            is_top_ranked(list, cap, ids, row, m1) ==> #[trigger] is_top_ranked(
                list,
                cap,
                ids,
                row,
                m2,
            ),
{
    let idx = indices(row.len());
    lemma_sum_same(idx, weight_of(row, m1), weight_of(row, m2));
    lemma_count_same(
        idx,
        |j: int| 0 <= j < row.len() && m1(j) && row[j] > 0,
        |j: int| 0 <= j < row.len() && m2(j) && row[j] > 0,
    );
}

/// The total over everyone is the total inside the group plus the total
/// outside it.
pub proof fn lemma_in_out_total(deputes: Seq<Depute>, row: Seq<u32>, i: int)
    requires
        row.len() == deputes.len(),
    ensures
        member_sum(row, everyone()) == member_sum(row, in_group_of(deputes, i)) + member_sum(
            row,
            out_group_of(deputes, i),
        ),
{
    lemma_sum_split(
        indices(row.len()),
        weight_of(row, everyone()),
        weight_of(row, in_group_of(deputes, i)),
        weight_of(row, out_group_of(deputes, i)),
    );
}

fn same_group_exec(a: &Depute, b: &Depute) -> (r: bool)
    ensures
        r == same_group(*a, *b),
{
    match (&a.groupe_abrev, &b.groupe_abrev) {
        (Some(x), Some(y)) => *x == *y,
        _ => false,
    }
}

fn group_flags(i: usize, deputes: &Vec<Depute>, inside: bool) -> (flags: Vec<bool>)
    requires
        i < deputes@.len(),
    ensures
        flags@.len() == deputes@.len(),
        forall|j: int|
            0 <= j < deputes@.len() ==> (#[trigger] flags@[j]) == (same_group(
                deputes@[i as int],
                deputes@[j],
            ) == inside),
{
    let mut flags: Vec<bool> = Vec::new();
    let mut j: usize = 0;
    while j < deputes.len()
        invariant
            j <= deputes@.len(),
            i < deputes@.len(),
            flags@.len() == j,
            forall|x: int|
                0 <= x < j ==> (#[trigger] flags@[x]) == (same_group(deputes@[i as int], deputes@[x])
                    == inside),
        decreases deputes@.len() - j,
    {
        flags.push(same_group_exec(&deputes[i], &deputes[j]) == inside);
        j += 1;
    }
    flags
}

fn key_flags(i: usize, deputes: &Vec<Depute>, abrev: &Option<String>, nom: &Option<String>) -> (flags:
    Vec<bool>)
    requires
        i < deputes@.len(),
    ensures
        flags@.len() == deputes@.len(),
        forall|j: int|
            0 <= j < deputes@.len() ==> (#[trigger] flags@[j]) == bucket_of(
                deputes@,
                i as int,
                (opt_text(*abrev), opt_text(*nom)),
            )(j),
{
    let mut flags: Vec<bool> = Vec::new();
    let mut j: usize = 0;
    while j < deputes.len()
        invariant
            j <= deputes@.len(),
            i < deputes@.len(),
            flags@.len() == j,
            forall|x: int|
                0 <= x < j ==> (#[trigger] flags@[x]) == bucket_of(
                    deputes@,
                    i as int,
                    (opt_text(*abrev), opt_text(*nom)),
                )(x),
        decreases deputes@.len() - j,
    {
        let d = &deputes[j];
        flags.push(
            !same_group_exec(&deputes[i], d) && opt_eq(&d.groupe_abrev, abrev) && opt_eq(
                &d.groupe_nom,
                nom,
            ),
        );
        j += 1;
    }
    flags
}

fn peers_from(list: &Vec<usize>, deputes: &Vec<Depute>, row: &Vec<u32>) -> (peers: Vec<CosignPeer>)
    requires
        row@.len() == deputes@.len(),
        forall|k: int| 0 <= k < list@.len() ==> (#[trigger] list@[k]) < row@.len(),
    ensures
        peers_match(peers@, list@, deputes@, row@),
{
    let mut peers: Vec<CosignPeer> = Vec::new();
    let mut k: usize = 0;
    while k < list.len()
        invariant
            k <= list@.len(),
            row@.len() == deputes@.len(),
            forall|x: int| 0 <= x < list@.len() ==> (#[trigger] list@[x]) < row@.len(),
            peers@.len() == k,
            forall|x: int|
                0 <= x < k ==> peer_matches(
                    #[trigger] peers@[x],
                    deputes@[list@[x] as int],
                    row@[list@[x] as int],
                ),
        decreases list@.len() - k,
    {
        let j = list[k];
        let d = &deputes[j];
        peers.push(
            CosignPeer {
                deputy_id: d.id.clone(),
                nom: d.nom.clone(),
                prenom: d.prenom.clone(),
                groupe_abrev: clone_opt(&d.groupe_abrev),
                groupe_nom: clone_opt(&d.groupe_nom),
                count: row[j],
            },
        );
        k += 1;
    }
    peers
}

fn tops_from(list: &Vec<usize>, deputes: &Vec<Depute>, row: &Vec<u32>) -> (tops: Vec<
    TopCosignataire,
>)
    requires
        row@.len() == deputes@.len(),
        forall|k: int| 0 <= k < list@.len() ==> (#[trigger] list@[k]) < row@.len(),
    ensures
        tops_match(tops@, list@, deputes@, row@),
{
    let mut tops: Vec<TopCosignataire> = Vec::new();
    let mut k: usize = 0;
    while k < list.len()
        invariant
            k <= list@.len(),
            row@.len() == deputes@.len(),
            forall|x: int| 0 <= x < list@.len() ==> (#[trigger] list@[x]) < row@.len(),
            tops@.len() == k,
            forall|x: int|
                0 <= x < k ==> top_matches(
                    #[trigger] tops@[x],
                    deputes@[list@[x] as int],
                    row@[list@[x] as int],
                ),
        decreases list@.len() - k,
    {
        let j = list[k];
        let d = &deputes[j];
        tops.push(
            TopCosignataire {
                deputy_id: d.id.clone(),
                nom: d.nom.clone(),
                prenom: d.prenom.clone(),
                groupe_abrev: clone_opt(&d.groupe_abrev),
                co_signed_count: row[j],
            },
        );
        k += 1;
    }
    tops
}

/// The number of positions with a count above zero.
fn count_partners(row: &Vec<u32>) -> (r: u32)
    requires
        row@.len() <= u32::MAX,
    ensures
        r == member_partners(row@, everyone()),
{
    let ghost idx = indices(row@.len());
    let ghost p = |j: int| 0 <= j < row@.len() && everyone()(j) && row@[j] > 0;
    let mut r: u32 = 0;
    let mut j: usize = 0;
    while j < row.len()
        invariant
            j <= row@.len(),
            row@.len() <= u32::MAX,
            idx == indices(row@.len()),
            p == (|j: int| 0 <= j < row@.len() && everyone()(j) && row@[j] > 0),
            r == count_if(idx.take(j as int), p),
            r <= j,
        decreases row@.len() - j,
    {
        proof {
            lemma_count_step(idx, j as int, p);
        }
        if row[j] > 0 {
            r = r + 1;
        }
        j += 1;
    }
    assert(idx.take(row@.len() as int) == idx);
    r
}

fn bucket_for(
    i: usize,
    witness: usize,
    deputes: &Vec<Depute>,
    row: &Vec<u32>,
    order: &Vec<usize>,
    Ghost(bound): Ghost<nat>,
) -> (b: CosignGroupBucket)
    requires
        i < deputes@.len(),
        witness < deputes@.len(),
        row@.len() == deputes@.len(),
        row@[witness as int] > 0,
        !same_group(deputes@[i as int], deputes@[witness as int]),
        is_ranking(order@, ids_of(deputes@), row@),
        forall|j: int| 0 <= j < row@.len() ==> (#[trigger] row@[j]) <= bound,
        row@.len() * bound <= u32::MAX,
    ensures
        is_bucket(b, deputes@, row@, i as int),
        bucket_key(b) == group_key(deputes@[witness as int]),
{
    let abrev = &deputes[witness].groupe_abrev;
    let nom = &deputes[witness].groupe_nom;
    let ghost key = (opt_text(*abrev), opt_text(*nom));
    let ghost ids = ids_of(deputes@);
    let flags = key_flags(i, deputes, abrev, nom);
    let total = sum_flagged(row, &flags, Ghost(bound));
    let list = take_ranked(
        order,
        &flags,
        COSIGN_OUT_GROUP_MEMBERS_UI_LIMIT,
        Ghost(ids),
        Ghost(row@),
    );
    let members = peers_from(&list, deputes, row);
    let b = CosignGroupBucket {
        groupe_abrev: clone_opt(abrev),
        groupe_nom: clone_opt(nom),
        count_total: total,
        members,
    };
    proof {
        let member = bucket_of(deputes@, i as int, key);
        lemma_same_member(row@, ids, flagged(flags@), member);
        assert(bucket_key(b) == key);
        assert(is_top_ranked(
            list@,
            COSIGN_OUT_GROUP_MEMBERS_UI_LIMIT as nat,
            ids,
            row@,
            member,
        ));
        let idx = indices(row@.len());
        lemma_sum_ge_item(idx, weight_of(row@, member), witness as int);
        assert(idx[witness as int] == witness);
        assert(member(witness as int));
    }
    b
}

fn find_bucket(buckets: &Vec<CosignGroupBucket>, abrev: &Option<String>, nom: &Option<String>)
    -> (r: bool)
    ensures
        r == exists|k: int|
            0 <= k < buckets@.len() && bucket_key(#[trigger] buckets@[k]) == (
                opt_text(*abrev),
                opt_text(*nom),
            ),
{
    let mut k: usize = 0;
    while k < buckets.len()
        invariant
            k <= buckets@.len(),
            forall|x: int|
                0 <= x < k ==> bucket_key(#[trigger] buckets@[x]) != (
                    opt_text(*abrev),
                    opt_text(*nom),
                ),
        decreases buckets@.len() - k,
    {
        if opt_eq(&buckets[k].groupe_abrev, abrev) && opt_eq(&buckets[k].groupe_nom, nom) {
            return true;
        }
        k += 1;
    }
    false
}

proof fn lemma_bucket_order()
    ensures
        total_preorder(bucket_order()),
{
    lemma_opt_lex_order();
    let leq = bucket_order();
    assert forall|a: CosignGroupBucket, b: CosignGroupBucket| #[trigger] leq(a, b) || #[trigger] leq(
        b,
        a,
    ) by {
        assert(opt_lex_lt(bucket_key(a).0, bucket_key(b).0) || bucket_key(a).0 == bucket_key(b).0
            || opt_lex_lt(bucket_key(b).0, bucket_key(a).0));
        assert(opt_lex_lt(bucket_key(a).1, bucket_key(b).1) || bucket_key(a).1 == bucket_key(b).1
            || opt_lex_lt(bucket_key(b).1, bucket_key(a).1));
    }
    assert forall|a: CosignGroupBucket, b: CosignGroupBucket, c: CosignGroupBucket| #[trigger]
        leq(a, b) && #[trigger] leq(b, c) implies leq(a, c) by {
        if a.count_total == b.count_total && b.count_total == c.count_total {
            let (a0, a1) = bucket_key(a);
            let (b0, b1) = bucket_key(b);
            let (c0, c1) = bucket_key(c);
            if opt_lex_lt(a0, b0) && opt_lex_lt(b0, c0) {
                assert(opt_lex_lt(a0, c0));
            } else if a0 == b0 && b0 == c0 {
                if opt_lex_lt(a1, b1) && opt_lex_lt(b1, c1) {
                    assert(opt_lex_lt(a1, c1));
                }
            }
        }
    }
}

fn bucket_not_after(a: &CosignGroupBucket, b: &CosignGroupBucket) -> (r: bool)
    ensures
        r == bucket_leq(*a, *b),
{
    proof {
        lemma_opt_lex_order();
        assert(opt_lex_lt(bucket_key(*a).0, bucket_key(*b).0) || bucket_key(*a).0 == bucket_key(
            *b,
        ).0 || opt_lex_lt(bucket_key(*b).0, bucket_key(*a).0));
        assert(opt_lex_lt(bucket_key(*a).1, bucket_key(*b).1) || bucket_key(*a).1 == bucket_key(
            *b,
        ).1 || opt_lex_lt(bucket_key(*b).1, bucket_key(*a).1));
        assert(!(opt_lex_lt(bucket_key(*a).0, bucket_key(*b).0) && opt_lex_lt(
            bucket_key(*b).0,
            bucket_key(*a).0,
        )));
        assert(!(opt_lex_lt(bucket_key(*a).1, bucket_key(*b).1) && opt_lex_lt(
            bucket_key(*b).1,
            bucket_key(*a).1,
        )));
        assert(!opt_lex_lt(bucket_key(*a).0, bucket_key(*a).0));
        assert(!opt_lex_lt(bucket_key(*a).1, bucket_key(*a).1));
    }
    if a.count_total != b.count_total {
        a.count_total > b.count_total
    } else if opt_str_lt(&a.groupe_abrev, &b.groupe_abrev) {
        true
    } else if opt_str_lt(&b.groupe_abrev, &a.groupe_abrev) {
        false
    } else {
        !opt_str_lt(&b.groupe_nom, &a.groupe_nom)
    }
}

/// The buckets of the partners outside the group of representative `i`,
/// sorted.
fn out_group_buckets(
    i: usize,
    deputes: &Vec<Depute>,
    row: &Vec<u32>,
    order: &Vec<usize>,
    Ghost(bound): Ghost<nat>,
) -> (buckets: Vec<CosignGroupBucket>)
    requires
        i < deputes@.len(),
        row@.len() == deputes@.len(),
        is_ranking(order@, ids_of(deputes@), row@),
        forall|j: int| 0 <= j < row@.len() ==> (#[trigger] row@[j]) <= bound,
        row@.len() * bound <= u32::MAX,
    ensures
        are_buckets(buckets@, deputes@, row@, i as int, row@.len() as int),
        sorted_by(buckets@, bucket_order()),
{
    let n = deputes.len();
    let mut buckets: Vec<CosignGroupBucket> = Vec::new();
    let mut j: usize = 0;
    while j < n
        invariant
            j <= n,
            n == deputes@.len(),
            i < n,
            row@.len() == n,
            is_ranking(order@, ids_of(deputes@), row@),
            forall|x: int| 0 <= x < row@.len() ==> (#[trigger] row@[x]) <= bound,
            row@.len() * bound <= u32::MAX,
            are_buckets(buckets@, deputes@, row@, i as int, j as int),
        decreases n - j,
    {
        let ghost before = buckets@;
        let mut added = false;
        if row[j] > 0 && !same_group_exec(&deputes[i], &deputes[j]) {
            if !find_bucket(&buckets, &deputes[j].groupe_abrev, &deputes[j].groupe_nom) {
                let b = bucket_for(i, j, deputes, row, order, Ghost(bound));
                buckets.push(b);
                added = true;
            }
        }
        proof {
            if added {
                assert forall|k: int| 0 <= k < before.len() implies buckets@[k] == before[k] by {}
                assert forall|x: int|
                    0 <= x < j + 1 && (#[trigger] row@[x]) > 0 && !same_group(
                        deputes@[i as int],
                        deputes@[x],
                    ) implies exists|k: int|
                    0 <= k < buckets@.len() && bucket_key(#[trigger] buckets@[k]) == group_key(
                        deputes@[x],
                    ) by {
                    if x < j {
                        let k = choose|k: int|
                            0 <= k < before.len() && bucket_key(#[trigger] before[k]) == group_key(
                                deputes@[x],
                            );
                        assert(bucket_key(buckets@[k]) == group_key(deputes@[x]));
                    } else {
                        assert(bucket_key(buckets@[before.len() as int]) == group_key(deputes@[x]));
                    }
                }
            }
        }
        j += 1;
    }
    let ghost unsorted = buckets@;
    proof {
        lemma_bucket_order();
    }
    let le = |a: &CosignGroupBucket, b: &CosignGroupBucket| -> (r: bool)
        ensures
            r == bucket_leq(*a, *b),
        { bucket_not_after(a, b) };
    sort_by(&mut buckets, le, Ghost(bucket_order()));
    proof {
        let sorted = buckets@;
        lemma_rearranged(unsorted, sorted);
        assert(unsorted.no_duplicates()) by {
            assert forall|a: int, b: int| 0 <= a < unsorted.len() && 0 <= b < unsorted.len() && a
                != b implies unsorted[a] != unsorted[b] by {
                if a < b {
                    assert(bucket_key(unsorted[a]) != bucket_key(unsorted[b]));
                } else {
                    assert(bucket_key(unsorted[b]) != bucket_key(unsorted[a]));
                }
            }
        }
        assert forall|k: int| 0 <= k < sorted.len() implies is_bucket(
            #[trigger] sorted[k],
            deputes@,
            row@,
            i as int,
        ) by {
            assert(unsorted.contains(sorted[k]));
        }
        assert forall|a: int, b: int| 0 <= a < b < sorted.len() implies bucket_key(
            #[trigger] sorted[a],
        ) != bucket_key(#[trigger] sorted[b]) by {
            assert(unsorted.contains(sorted[a]));
            assert(unsorted.contains(sorted[b]));
            let x = choose|x: int| 0 <= x < unsorted.len() && unsorted[x] == sorted[a];
            let y = choose|y: int| 0 <= y < unsorted.len() && unsorted[y] == sorted[b];
            assert(sorted[a] != sorted[b]);
            if x < y {
                assert(bucket_key(unsorted[x]) != bucket_key(unsorted[y]));
            } else {
                assert(bucket_key(unsorted[y]) != bucket_key(unsorted[x]));
            }
        }
        assert forall|x: int|
            0 <= x < row@.len() && (#[trigger] row@[x]) > 0 && !same_group(
                deputes@[i as int],
                deputes@[x],
            ) implies exists|k: int|
            0 <= k < sorted.len() && bucket_key(#[trigger] sorted[k]) == group_key(deputes@[x]) by {
            let u = choose|u: int|
                0 <= u < unsorted.len() && bucket_key(#[trigger] unsorted[u]) == group_key(
                    deputes@[x],
                );
            assert(sorted.contains(unsorted[u]));
            let k = choose|k: int| 0 <= k < sorted.len() && sorted[k] == unsorted[u];
            assert(bucket_key(sorted[k]) == group_key(deputes@[x]));
        }
    }
    buckets
}

/// The overall partner list and the network figures of a representative.
#[derive(Debug, Clone)]
pub struct CosignEntry {
    pub top: Vec<TopCosignataire>,
    pub network: CosignNetworkStats,
}

/// The counts of representative `i` with each representative, as the row
/// of machine integers that holds them.
pub open spec fn pair_row_u32(
    deputes: Seq<Depute>,
    amendements: Seq<Amendement>,
    p: PeriodBounds,
    i: int,
) -> Seq<u32> {
    Seq::new(deputes.len(), |j: int| pair_row(deputes, amendements, p, i)[j] as u32)
}

/// Representative `i` has signed no counted amendment together with anyone.
pub open spec fn no_partner(deputes: Seq<Depute>, amendements: Seq<Amendement>, p: PeriodBounds, i: int)
    -> bool {
    forall|j: int|
        0 <= j < deputes.len() ==> pair_count(
            amendements,
            deputes[i].id@,
            (#[trigger] deputes[j]).id@,
            p,
        ) == 0
}

/// The entry states the partners of representative `i` over the period.
pub open spec fn is_cosign_entry(
    e: CosignEntry,
    deputes: Seq<Depute>,
    amendements: Seq<Amendement>,
    p: PeriodBounds,
    i: int,
) -> bool {
    let row = pair_row_u32(deputes, amendements, p, i);
    &&& is_network(e.network, deputes, row, i)
    &&& is_top_cosignataires(e.top@, deputes, row)
}

/// The limits under which the counts of the network fit their integers.
pub open spec fn cosign_limits(deputes: Seq<Depute>, amendements: Seq<Amendement>) -> bool {
    &&& deputes.len() <= u32::MAX
    &&& amendements.len() <= u32::MAX
    &&& deputes.len() * amendements.len() <= u32::MAX
}

/// The co-signature partners of representative `i` over a period; none
/// where the representative has no partner.
pub fn cosign_entry(i: usize, deputes: &Vec<Depute>, amendements: &Vec<Amendement>, p: &PeriodBounds)
    -> (r: Option<CosignEntry>)
    requires
        i < deputes@.len(),
        distinct_ids(deputes@),
        cosign_limits(deputes@, amendements@),
    ensures
        r is None <==> no_partner(deputes@, amendements@, *p, i as int),
        r matches Some(e) ==> is_cosign_entry(e, deputes@, amendements@, *p, i as int),
{
    let row = cosign_row(i, deputes, amendements, p);
    let ghost ids = ids_of(deputes@);
    let ghost bound = amendements@.len();
    proof {
        assert(row@ =~= pair_row_u32(deputes@, amendements@, *p, i as int));
    }
    let order = ranked_partners(deputes, &row);
    if order.len() == 0 {
        proof {
            assert forall|j: int| 0 <= j < deputes@.len() implies pair_count(
                amendements@,
                deputes@[i as int].id@,
                (#[trigger] deputes@[j]).id@,
                *p,
            ) == 0 by {
                if row@[j] > 0 {
                    let k = choose|k: int| 0 <= k < order@.len() && (#[trigger] order@[k]) == j;
                }
            }
        }
        return None;
    }
    proof {
        let j = order@[0] as int;
        assert(row@[j] > 0);
        assert(pair_count(amendements@, deputes@[i as int].id@, deputes@[j].id@, *p) > 0);
    }
    let everyone_flags = all_flags(deputes.len());
    let top_list = take_ranked(
        &order,
        &everyone_flags,
        COSIGN_TOP_LIMIT,
        Ghost(ids),
        Ghost(row@),
    );
    let top = tops_from(&top_list, deputes, &row);
    let in_flags = group_flags(i, deputes, true);
    let out_flags = group_flags(i, deputes, false);
    let in_group_count = sum_flagged(&row, &in_flags, Ghost(bound));
    let out_group_count = sum_flagged(&row, &out_flags, Ghost(bound));
    let in_list = take_ranked(
        &order,
        &in_flags,
        COSIGN_IN_GROUP_UI_LIMIT,
        Ghost(ids),
        Ghost(row@),
    );
    let in_group = peers_from(&in_list, deputes, &row);
    let out_group_groups = out_group_buckets(i, deputes, &row, &order, Ghost(bound));
    let unique_cosignataires = count_partners(&row);
    proof {
        lemma_same_member(row@, ids, flagged(everyone_flags@), everyone());
        lemma_same_member(row@, ids, flagged(in_flags@), in_group_of(deputes@, i as int));
        lemma_same_member(row@, ids, flagged(out_flags@), out_group_of(deputes@, i as int));
        lemma_in_out_total(deputes@, row@, i as int);
        let idx = indices(row@.len());
        assert forall|x: int| 0 <= x < idx.len() implies weight_of(row@, everyone())(
            #[trigger] idx[x],
        ) <= bound by {}
        lemma_sum_bound(idx, weight_of(row@, everyone()), bound);
        assert(is_top_ranked(top_list@, COSIGN_TOP_LIMIT as nat, ids, row@, everyone()));
        assert(is_top_ranked(
            in_list@,
            COSIGN_IN_GROUP_UI_LIMIT as nat,
            ids,
            row@,
            in_group_of(deputes@, i as int),
        ));
    }
    let network = CosignNetworkStats {
        total_cosignatures: in_group_count + out_group_count,
        unique_cosignataires,
        in_group_count,
        out_group_count,
        in_group,
        out_group_groups,
    };
    Some(CosignEntry { top, network })
}

fn all_flags(n: usize) -> (flags: Vec<bool>)
    ensures
        flags@.len() == n,
        forall|j: int| 0 <= j < n ==> #[trigger] flags@[j],
{
    let mut flags: Vec<bool> = Vec::new();
    let mut j: usize = 0;
    while j < n
        invariant
            j <= n,
            flags@.len() == j,
            forall|x: int| 0 <= x < j ==> #[trigger] flags@[x],
        decreases n - j,
    {
        flags.push(true);
        j += 1;
    }
    flags
}

} // verus!
