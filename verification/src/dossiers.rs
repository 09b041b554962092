//! The legislative files on which a representative was most active.

use vstd::prelude::*;
use crate::aggregator::{
    amendement_in_windows, authored_by, cast_position, is_amendement_in_windows, is_author,
    is_expressed, is_scrutin_eligible, position_of, scrutin_eligible,
};
use crate::counting::{count_if, lemma_count_bound, lemma_count_step};
use crate::models::{Amendement, Dossier, DossierScore, Scrutin, VotePosition};
use crate::sorting::{sort_by, total_preorder};
use crate::text::{lemma_lex_le_order, lemma_lex_total, lex_le, lex_lt, str_lt};
use crate::windows::DateWindow;

verus! {

/// How many files the ranking of a representative keeps.
pub const TOP_DOSSIERS: usize = 10;

/// The eligible roll calls on file `d` in which the representative cast a
/// vote.
pub open spec fn votes_on(id: Seq<char>, windows: Seq<DateWindow>, d: Seq<char>) -> spec_fn(
    Scrutin,
) -> bool {
    |s: Scrutin|
        scrutin_eligible(s, windows) && is_expressed(cast_position(s, id)) && (
        s.dossier_ref matches Some(r) && r@ == d)
}

/// The counted amendments to file `d` that the representative authored.
pub open spec fn amendements_on(
    id: Seq<char>,
    windows: Seq<DateWindow>,
    undated: bool,
    d: Seq<char>,
) -> spec_fn(Amendement) -> bool {
    |a: Amendement|
        amendement_in_windows(a, windows, undated) && authored_by(a, id) && (
        a.dossier_ref matches Some(r) && r@ == d)
}

/// What the activity of a representative is measured on.
pub struct Activity {
    pub scrutins: Seq<Scrutin>,
    pub amendements: Seq<Amendement>,
    pub id: Seq<char>,
    pub windows: Seq<DateWindow>,
    pub undated: bool,
}

impl Activity {
    pub open spec fn votes(self, d: Seq<char>) -> nat {
        count_if(self.scrutins, votes_on(self.id, self.windows, d))
    }

    pub open spec fn amendements(self, d: Seq<char>) -> nat {
        count_if(self.amendements, amendements_on(self.id, self.windows, self.undated, d))
    }

    /// The activity score on a file: one point for each vote, two for each
    /// amendment authored.
    pub open spec fn score(self, d: Seq<char>) -> nat {
        self.votes(d) + 2 * self.amendements(d)
    }
}

/// The title shown for file `d`: that of the file with this id when it has
/// one that is not empty, else the id itself.
pub open spec fn dossier_title(dossiers: Seq<Dossier>, d: Seq<char>) -> Seq<char>
    decreases dossiers.len(),
{
    if dossiers.len() == 0 {
        d
    } else if dossiers[0].id@ == d {
        if dossiers[0].titre@.len() > 0 {
            dossiers[0].titre@
        } else {
            d
        }
    } else {
        dossier_title(dossiers.skip(1), d)
    }
}

/// The order of the ranking: the higher score first, and among equal scores
/// the smaller id.
pub open spec fn ranks_before(score_a: int, id_a: Seq<char>, score_b: int, id_b: Seq<char>)
    -> bool {
    score_a > score_b || (score_a == score_b && lex_lt(id_a, id_b))
}

/// The entry states the activity on its file.
pub open spec fn entry_matches(e: DossierScore, act: Activity, dossiers: Seq<Dossier>) -> bool {
    &&& e.votes == act.votes(e.dossier_id@)
    &&& e.amendements == act.amendements(e.dossier_id@)
    &&& e.interventions == 0
    &&& e.score == act.score(e.dossier_id@)
    &&& e.score > 0
    &&& e.titre@ == dossier_title(dossiers, e.dossier_id@)
}

pub open spec fn listed(top: Seq<DossierScore>, d: Seq<char>) -> bool {
    exists|k: int| 0 <= k < top.len() && (#[trigger] top[k]).dossier_id@ == d
}

/// `top` is the ranking of the files with activity: at most ten entries,
/// each stating the activity on its file, in ranking order, and every file
/// with activity that is left out ranks after the last entry of a full list.
pub open spec fn is_top_dossiers(top: Seq<DossierScore>, act: Activity, dossiers: Seq<Dossier>)
    -> bool {
    &&& top.len() <= TOP_DOSSIERS
    &&& forall|k: int| 0 <= k < top.len() ==> entry_matches(#[trigger] top[k], act, dossiers)
    &&& forall|a: int, b: int|
        0 <= a < b < top.len() ==> ranks_before(
            (#[trigger] top[a]).score as int,
            top[a].dossier_id@,
            (#[trigger] top[b]).score as int,
            top[b].dossier_id@,
        )
    &&& forall|d: Seq<char>| #[trigger]
        act.score(d) > 0 ==> listed(top, d) || (top.len() == TOP_DOSSIERS && ranks_before(
            top.last().score as int,
            top.last().dossier_id@,
            act.score(d) as int,
            d,
        ))
}

/// The count of votes and amendments on one file.
pub struct DossierCount {
    pub id: String,
    pub votes: u32,
    pub amendements: u32,
}

pub open spec fn count_leq(a: DossierCount, b: DossierCount) -> bool {
    let sa = a.votes + 2 * a.amendements;
    let sb = b.votes + 2 * b.amendements;
    sa > sb || (sa == sb && lex_le(a.id@, b.id@))
}

pub open spec fn count_order() -> spec_fn(DossierCount, DossierCount) -> bool {
    |a: DossierCount, b: DossierCount| count_leq(a, b)
}

proof fn lemma_count_order()
    ensures
        total_preorder(count_order()),
{
    lemma_lex_le_order();
    let leq = count_order();
    assert forall|a: DossierCount, b: DossierCount| #[trigger] leq(a, b) || #[trigger] leq(
        b,
        a,
    ) by {
        assert(lex_le(a.id@, b.id@) || lex_le(b.id@, a.id@));
    }
    assert forall|a: DossierCount, b: DossierCount, c: DossierCount| #[trigger]
        leq(a, b) && #[trigger] leq(b, c) implies leq(a, c) by {
        let sa = a.votes + 2 * a.amendements;
        let sb = b.votes + 2 * b.amendements;
        let sc = c.votes + 2 * c.amendements;
        if sa == sb && sb == sc {
            assert(lex_le(a.id@, b.id@) && lex_le(b.id@, c.id@));
        }
    }
}

fn find_count(counts: &Vec<DossierCount>, d: &String) -> (r: Option<usize>)
    ensures
        match r {
            Some(k) => k < counts.len() && counts@[k as int].id@ == d@,
            None => forall|k: int| 0 <= k < counts.len() ==> (#[trigger] counts@[k]).id@ != d@,
        },
{
    let mut k: usize = 0;
    while k < counts.len()
        invariant
            k <= counts.len(),
            forall|j: int| 0 <= j < k ==> (#[trigger] counts@[j]).id@ != d@,
        decreases counts.len() - k,
    {
        if counts[k].id == *d {
            return Some(k);
        }
        k += 1;
    }
    None
}

/// The counts hold, for the first `i` roll calls and the first `j`
/// amendments, one entry for each file with activity and no other.
pub open spec fn counts_upto(counts: Seq<DossierCount>, act: Activity, i: int, j: int) -> bool {
    let part = Activity {
        scrutins: act.scrutins.take(i),
        amendements: act.amendements.take(j),
        ..act
    };
    &&& forall|a: int, b: int|
        0 <= a < b < counts.len() ==> (#[trigger] counts[a]).id@ != (#[trigger] counts[b]).id@
    &&& forall|k: int|
        0 <= k < counts.len() ==> {
            &&& (#[trigger] counts[k]).votes == part.votes(counts[k].id@)
            &&& counts[k].amendements == part.amendements(counts[k].id@)
            &&& counts[k].votes + counts[k].amendements > 0
        }
    &&& forall|d: Seq<char>| #[trigger]
        part.score(d) > 0 ==> exists|k: int| 0 <= k < counts.len() && (#[trigger] counts[k]).id@ == d
}

fn count_votes(id: &String, scrutins: &Vec<Scrutin>, windows: &Vec<DateWindow>, Ghost(act): Ghost<
    Activity,
>) -> (counts: Vec<DossierCount>)
    requires
        scrutins.len() <= u32::MAX,
        act.scrutins == scrutins@,
        act.id == id@,
        act.windows == windows@,
    ensures
        counts_upto(counts@, act, scrutins.len() as int, 0),
{
    let mut counts: Vec<DossierCount> = Vec::new();
    let mut i: usize = 0;
    assert(counts_upto(counts@, act, 0, 0)) by {
        assert(act.scrutins.take(0).len() == 0);
        assert(act.amendements.take(0).len() == 0);
    }
    while i < scrutins.len()
        invariant
            i <= scrutins.len(),
            scrutins.len() <= u32::MAX,
            act.scrutins == scrutins@,
            act.id == id@,
            act.windows == windows@,
            counts_upto(counts@, act, i as int, 0),
        decreases scrutins.len() - i,
    {
        let s = &scrutins[i];
        let ghost before = counts@;
        let ghost part = Activity {
            scrutins: act.scrutins.take(i as int),
            amendements: act.amendements.take(0),
            ..act
        };
        let ghost next = Activity {
            scrutins: act.scrutins.take(i + 1),
            amendements: act.amendements.take(0),
            ..act
        };
        proof {
            assert forall|d: Seq<char>|
                next.votes(d) == part.votes(d) + if votes_on(id@, windows@, d)(scrutins@[i as int]) {
                    1nat
                } else {
                    0nat
                } && part.votes(d) <= i && next.amendements(d) == part.amendements(d) by {
                lemma_count_step(scrutins@, i as int, votes_on(id@, windows@, d));
            }
        }
        let mut counted = false;
        if is_scrutin_eligible(s, windows) {
            let expressed = match position_of(&s.votes, id) {
                Some(VotePosition::Pour) => true,
                Some(VotePosition::Contre) => true,
                Some(VotePosition::Abstention) => true,
                _ => false,
            };
            if expressed {
                match &s.dossier_ref {
                    Some(r) => {
                        counted = true;
                        match find_count(&counts, r) {
                            Some(k) => {
                                let e = DossierCount {
                                    id: counts[k].id.clone(),
                                    votes: counts[k].votes + 1,
                                    amendements: counts[k].amendements,
                                };
                                counts.set(k, e);
                                proof {
                                    assert forall|x: int| 0 <= x < counts@.len() implies (
                                    #[trigger] counts@[x]).id@ == before[x].id@ by {}
                                    assert forall|d: Seq<char>| #[trigger]
                                        next.score(d) > 0 implies exists|x: int|
                                        0 <= x < counts@.len() && (#[trigger] counts@[x]).id@
                                            == d by {
                                        if d == r@ {
                                            assert(counts@[k as int].id@ == d);
                                        } else {
                                            assert(part.score(d) > 0);
                                            let x = choose|x: int|
                                                0 <= x < before.len() && (#[trigger] before[x]).id@
                                                    == d;
                                            assert(counts@[x].id@ == d);
                                        }
                                    }
                                }
                            },
                            None => {
                                proof {
                                    if part.score(r@) > 0 {
                                        let x = choose|x: int|
                                            0 <= x < before.len() && (#[trigger] before[x]).id@
                                                == r@;
                                        assert(false);
                                    }
                                }
                                counts.push(DossierCount { id: r.clone(), votes: 1, amendements: 0 });
                                proof {
                                    assert forall|x: int| 0 <= x < before.len() implies (
                                    #[trigger] counts@[x]) == before[x] by {}
                                    assert forall|d: Seq<char>| #[trigger]
                                        next.score(d) > 0 implies exists|x: int|
                                        0 <= x < counts@.len() && (#[trigger] counts@[x]).id@
                                            == d by {
                                        if d == r@ {
                                            assert(counts@[before.len() as int].id@ == d);
                                        } else {
                                            assert(part.score(d) > 0);
                                            let x = choose|x: int|
                                                0 <= x < before.len() && (#[trigger] before[x]).id@
                                                    == d;
                                            assert(counts@[x].id@ == d);
                                        }
                                    }
                                }
                            },
                        }
                    },
                    None => {},
                }
            }
        }
        proof {
            if !counted {
                assert forall|d: Seq<char>| #[trigger] next.score(d) > 0 implies exists|x: int|
                    0 <= x < counts@.len() && (#[trigger] counts@[x]).id@ == d by {
                    assert(part.score(d) > 0);
                }
            }
        }
        i += 1;
    }
    counts
}

fn count_amendements(
    counts: Vec<DossierCount>,
    id: &String,
    amendements: &Vec<Amendement>,
    windows: &Vec<DateWindow>,
    undated: bool,
    Ghost(act): Ghost<Activity>,
) -> (r: Vec<DossierCount>)
    requires
        amendements.len() <= u32::MAX,
        act.amendements == amendements@,
        act.id == id@,
        act.windows == windows@,
        act.undated == undated,
        counts_upto(counts@, act, act.scrutins.len() as int, 0),
    ensures
        counts_upto(r@, act, act.scrutins.len() as int, amendements.len() as int),
{
    let mut counts = counts;
    let ghost full = act.scrutins.len() as int;
    let mut j: usize = 0;
    while j < amendements.len()
        invariant
            j <= amendements.len(),
            amendements.len() <= u32::MAX,
            act.amendements == amendements@,
            act.id == id@,
            act.windows == windows@,
            act.undated == undated,
            full == act.scrutins.len(),
            counts_upto(counts@, act, full, j as int),
        decreases amendements.len() - j,
    {
        let a = &amendements[j];
        let ghost before = counts@;
        let ghost part = Activity {
            scrutins: act.scrutins.take(full),
            amendements: act.amendements.take(j as int),
            ..act
        };
        let ghost next = Activity {
            scrutins: act.scrutins.take(full),
            amendements: act.amendements.take(j + 1),
            ..act
        };
        proof {
            assert forall|d: Seq<char>|
                next.amendements(d) == part.amendements(d) + if amendements_on(
                    id@,
                    windows@,
                    undated,
                    d,
                )(amendements@[j as int]) {
                    1nat
                } else {
                    0nat
                } && part.amendements(d) <= j && next.votes(d) == part.votes(d) by {
                lemma_count_step(amendements@, j as int, amendements_on(id@, windows@, undated, d));
            }
        }
        let mut counted = false;
        if is_amendement_in_windows(a, windows, undated) && is_author(a, id) {
            match &a.dossier_ref {
                Some(r) => {
                    counted = true;
                    match find_count(&counts, r) {
                        Some(k) => {
                            let e = DossierCount {
                                id: counts[k].id.clone(),
                                votes: counts[k].votes,
                                amendements: counts[k].amendements + 1,
                            };
                            counts.set(k, e);
                            proof {
                                assert forall|x: int| 0 <= x < counts@.len() implies (
                                #[trigger] counts@[x]).id@ == before[x].id@ by {}
                                assert forall|d: Seq<char>| #[trigger]
                                    next.score(d) > 0 implies exists|x: int|
                                    0 <= x < counts@.len() && (#[trigger] counts@[x]).id@ == d by {
                                    if d == r@ {
                                        assert(counts@[k as int].id@ == d);
                                    } else {
                                        assert(part.score(d) > 0);
                                        let x = choose|x: int|
                                            0 <= x < before.len() && (#[trigger] before[x]).id@
                                                == d;
                                        assert(counts@[x].id@ == d);
                                    }
                                }
                            }
                        },
                        None => {
                            proof {
                                if part.score(r@) > 0 {
                                    let x = choose|x: int|
                                        0 <= x < before.len() && (#[trigger] before[x]).id@ == r@;
                                    assert(false);
                                }
                            }
                            counts.push(DossierCount { id: r.clone(), votes: 0, amendements: 1 });
                            proof {
                                assert forall|x: int| 0 <= x < before.len() implies (
                                #[trigger] counts@[x]) == before[x] by {}
                                assert forall|d: Seq<char>| #[trigger]
                                    next.score(d) > 0 implies exists|x: int|
                                    0 <= x < counts@.len() && (#[trigger] counts@[x]).id@ == d by {
                                    if d == r@ {
                                        assert(counts@[before.len() as int].id@ == d);
                                    } else {
                                        assert(part.score(d) > 0);
                                        let x = choose|x: int|
                                            0 <= x < before.len() && (#[trigger] before[x]).id@
                                                == d;
                                        assert(counts@[x].id@ == d);
                                    }
                                }
                            }
                        },
                    }
                },
                None => {},
            }
        }
        proof {
            if !counted {
                assert forall|d: Seq<char>| #[trigger] next.score(d) > 0 implies exists|x: int|
                    0 <= x < counts@.len() && (#[trigger] counts@[x]).id@ == d by {
                    assert(part.score(d) > 0);
                }
            }
        }
        j += 1;
    }
    counts
}

fn count_not_after(a: &DossierCount, b: &DossierCount) -> (r: bool)
    ensures
        r == count_leq(*a, *b),
{
    let sa: u64 = a.votes as u64 + 2 * (a.amendements as u64);
    let sb: u64 = b.votes as u64 + 2 * (b.amendements as u64);
    proof {
        lemma_lex_total(a.id@, b.id@);
    }
    sa > sb || (sa == sb && !str_lt(b.id.as_str(), a.id.as_str()))
}

/// The title shown for a file.
pub fn title_of(dossiers: &Vec<Dossier>, d: &String) -> (r: String)
    ensures
        r@ == dossier_title(dossiers@, d@),
{
    let mut i: usize = 0;
    assert(dossiers@.skip(0) == dossiers@);
    while i < dossiers.len()
        invariant
            i <= dossiers.len(),
            dossier_title(dossiers@, d@) == dossier_title(dossiers@.skip(i as int), d@),
        decreases dossiers.len() - i,
    {
        if dossiers[i].id == *d {
            if dossiers[i].titre.as_str().is_empty() {
                return d.clone();
            } else {
                return dossiers[i].titre.clone();
            }
        }
        assert(dossiers@.skip(i as int).skip(1) == dossiers@.skip(i + 1));
        i += 1;
    }
    d.clone()
}

/// Ranks the files on which the representative was active and keeps the
/// first ten.
pub fn top_dossiers(
    id: &String,
    scrutins: &Vec<Scrutin>,
    amendements: &Vec<Amendement>,
    dossiers: &Vec<Dossier>,
    windows: &Vec<DateWindow>,
    undated: bool,
) -> (top: Vec<DossierScore>)
    requires
        scrutins.len() + 2 * amendements.len() <= u32::MAX,
    ensures
        is_top_dossiers(
            top@,
            Activity {
                scrutins: scrutins@,
                amendements: amendements@,
                id: id@,
                windows: windows@,
                undated,
            },
            dossiers@,
        ),
{
    let ghost act = Activity {
        scrutins: scrutins@,
        amendements: amendements@,
        id: id@,
        windows: windows@,
        undated,
    };
    let counts = count_votes(id, scrutins, windows, Ghost(act));
    let mut counts = count_amendements(counts, id, amendements, windows, undated, Ghost(act));
    let ghost unsorted = counts@;
    proof {
        assert(act.scrutins.take(scrutins.len() as int) == act.scrutins);
        assert(act.amendements.take(amendements.len() as int) == act.amendements);
        lemma_count_order();
    }
    let le = |a: &DossierCount, b: &DossierCount| -> (r: bool)
        ensures
            r == count_leq(*a, *b),
        { count_not_after(a, b) };
    sort_by(&mut counts, le, Ghost(count_order()));
    let ghost sorted = counts@;
    proof {
        lemma_sorted_counts(unsorted, sorted, act);
    }
    if counts.len() > TOP_DOSSIERS {
        counts.truncate(TOP_DOSSIERS);
    }
    let mut top: Vec<DossierScore> = Vec::new();
    let mut k: usize = 0;
    while k < counts.len()
        invariant
            k <= counts.len(),
            counts@.len() <= TOP_DOSSIERS,
            counts@.len() <= sorted.len(),
            counts@ == sorted.take(counts@.len() as int),
            counts_upto(sorted, act, act.scrutins.len() as int, act.amendements.len() as int),
            act.scrutins.take(act.scrutins.len() as int) == act.scrutins,
            act.amendements.take(act.amendements.len() as int) == act.amendements,
            act.scrutins.len() + 2 * act.amendements.len() <= u32::MAX,
            top@.len() == k,
            forall|x: int|
                0 <= x < k ==> {
                    &&& (#[trigger] top@[x]).dossier_id@ == sorted[x].id@
                    &&& top@[x].score == sorted[x].votes + 2 * sorted[x].amendements
                    &&& entry_matches(top@[x], act, dossiers@)
                },
        decreases counts.len() - k,
    {
        let c = &counts[k];
        proof {
            assert(c == sorted[k as int]);
            lemma_count_bound(act.scrutins, votes_on(act.id, act.windows, c.id@));
            lemma_count_bound(
                act.amendements,
                amendements_on(act.id, act.windows, act.undated, c.id@),
            );
        }
        top.push(
            DossierScore {
                dossier_id: c.id.clone(),
                titre: title_of(dossiers, &c.id),
                votes: c.votes,
                amendements: c.amendements,
                interventions: 0,
                score: c.votes + 2 * c.amendements,
            },
        );
        k += 1;
    }
    proof {
        assert forall|a: int, b: int| 0 <= a < b < top@.len() implies ranks_before(
            (#[trigger] top@[a]).score as int,
            top@[a].dossier_id@,
            (#[trigger] top@[b]).score as int,
            top@[b].dossier_id@,
        ) by {
            assert(count_order()(sorted[a], sorted[b]));
            assert(sorted[a].id@ != sorted[b].id@);
        }
        assert forall|d: Seq<char>| #[trigger] act.score(d) > 0 implies listed(top@, d) || (
        top@.len() == TOP_DOSSIERS && ranks_before(
            top@.last().score as int,
            top@.last().dossier_id@,
            act.score(d) as int,
            d,
        )) by {
            let x = choose|x: int| 0 <= x < sorted.len() && (#[trigger] sorted[x]).id@ == d;
            if x < top@.len() {
                assert(top@[x].dossier_id@ == d);
            } else {
                let last = top@.len() - 1;
                assert(count_order()(sorted[last], sorted[x]));
                assert(sorted[last].id@ != sorted[x].id@);
                assert(top@[last].dossier_id@ == sorted[last].id@);
            }
        }
    }
    top
}

/// A sorted rearrangement of the counts still holds one entry for each file
/// with activity.
proof fn lemma_sorted_counts(unsorted: Seq<DossierCount>, sorted: Seq<DossierCount>, act: Activity)
    requires
        counts_upto(unsorted, act, act.scrutins.len() as int, act.amendements.len() as int),
        sorted.to_multiset() == unsorted.to_multiset(),
        sorted.len() == unsorted.len(),
    ensures
        counts_upto(sorted, act, act.scrutins.len() as int, act.amendements.len() as int),
{
    broadcast use vstd::seq_lib::group_to_multiset_ensures;

    assert(unsorted.no_duplicates());
    unsorted.lemma_multiset_has_no_duplicates();
    sorted.lemma_multiset_has_no_duplicates_conv();
    assert forall|k: int| 0 <= k < sorted.len() implies exists|x: int|
        0 <= x < unsorted.len() && unsorted[x] == #[trigger] sorted[k] by {
        assert(sorted.to_multiset().count(sorted[k]) > 0);
        assert(unsorted.to_multiset().count(sorted[k]) > 0);
        assert(unsorted.contains(sorted[k]));
    }
    assert forall|a: int, b: int| 0 <= a < b < sorted.len() implies (#[trigger] sorted[a]).id@ != (
    #[trigger] sorted[b]).id@ by {
        let x = choose|x: int| 0 <= x < unsorted.len() && unsorted[x] == sorted[a];
        let y = choose|y: int| 0 <= y < unsorted.len() && unsorted[y] == sorted[b];
        assert(sorted[a] != sorted[b]);
        if x < y {
            assert(unsorted[x].id@ != unsorted[y].id@);
        } else {
            assert(unsorted[y].id@ != unsorted[x].id@);
        }
    }
    let part = Activity {
        scrutins: act.scrutins.take(act.scrutins.len() as int),
        amendements: act.amendements.take(act.amendements.len() as int),
        ..act
    };
    assert forall|k: int| 0 <= k < sorted.len() implies {
        &&& (#[trigger] sorted[k]).votes == part.votes(sorted[k].id@)
        &&& sorted[k].amendements == part.amendements(sorted[k].id@)
        &&& sorted[k].votes + sorted[k].amendements > 0
    } by {
        let x = choose|x: int| 0 <= x < unsorted.len() && unsorted[x] == sorted[k];
        assert(unsorted[x].votes == part.votes(unsorted[x].id@));
    }
    assert forall|d: Seq<char>| #[trigger] part.score(d) > 0 implies exists|k: int|
        0 <= k < sorted.len() && (#[trigger] sorted[k]).id@ == d by {
        let x = choose|x: int| 0 <= x < unsorted.len() && (#[trigger] unsorted[x]).id@ == d;
        assert(unsorted.to_multiset().count(unsorted[x]) > 0);
        assert(sorted.to_multiset().count(unsorted[x]) > 0);
        assert(sorted.contains(unsorted[x]));
        let k = choose|k: int| 0 <= k < sorted.len() && sorted[k] == unsorted[x];
        assert(sorted[k].id@ == d);
    }
}

} // verus!
