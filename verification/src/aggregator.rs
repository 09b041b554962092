//! Per-representative statistics over a period.

use vstd::prelude::*;
use crate::counting::{count_if, lemma_count_step};
use crate::cosign::{cosign_entry, cosign_limits, distinct_ids, is_network, is_top_cosignataires, no_partner, pair_row_u32, PeriodBounds};
use crate::dates::{Date, DATE_MIN_DAYS};
use crate::dossiers::{is_top_dossiers, top_dossiers, Activity};
use crate::models::{
    clone_deputes, clone_dossiers, clone_episodes, clone_sources, clone_texts, depute_records,
    dossier_records, Amendement, CosignNetworkStats, Depute, DeputeStats, Dossier, RawDataset,
    Scrutin, TopCosignataire, Vote, VotePosition,
};
use crate::text::clone_opt;
use crate::windows::{date_in_windows, effective_mandate_windows, effective_windows, in_windows, DateWindow};

verus! {

/// The position recorded for a representative among the votes of a roll
/// call: that of the first entry with their id.
pub open spec fn recorded_position(votes: Seq<Vote>, id: Seq<char>) -> Option<VotePosition>
    decreases votes.len(),
{
    if votes.len() == 0 {
        None
    } else if votes[0].deputy_id@ == id {
        Some(votes[0].position)
    } else {
        recorded_position(votes.skip(1), id)
    }
}

/// The position a representative counts with in a roll call: the recorded
/// one, and absent where none is recorded.
pub open spec fn cast_position(s: Scrutin, id: Seq<char>) -> VotePosition {
    match recorded_position(s.votes@, id) {
        Some(p) => p,
        None => VotePosition::Absent,
    }
}

/// A roll call counts for the windows when it is dated and its date lies in
/// one of them.
pub open spec fn scrutin_eligible(s: Scrutin, windows: Seq<DateWindow>) -> bool {
    s.date matches Some(d) && in_windows(d, windows)
}

pub open spec fn eligible_scrutins(windows: Seq<DateWindow>) -> spec_fn(Scrutin) -> bool {
    |s: Scrutin| scrutin_eligible(s, windows)
}

/// The eligible roll calls in which the representative counts with
/// position `p`.
pub open spec fn scrutins_cast(id: Seq<char>, windows: Seq<DateWindow>, p: VotePosition)
    -> spec_fn(Scrutin) -> bool {
    |s: Scrutin| scrutin_eligible(s, windows) && cast_position(s, id) == p
}

/// A vote for, against or abstaining: a vote that was cast.
pub open spec fn is_expressed(p: VotePosition) -> bool {
    p == VotePosition::Pour || p == VotePosition::Contre || p == VotePosition::Abstention
}

/// An amendment counts for the windows when it is dated and its date lies
/// in one of them, or when it is undated, undated amendments are admitted
/// and there is a window at all.
pub open spec fn amendement_in_windows(a: Amendement, windows: Seq<DateWindow>, undated: bool)
    -> bool {
    match a.date {
        Some(d) => in_windows(d, windows),
        None => undated && windows.len() > 0,
    }
}

pub open spec fn authored_by(a: Amendement, id: Seq<char>) -> bool {
    a.auteur_id matches Some(x) && x@ == id
}

pub open spec fn among_cosigners(a: Amendement, id: Seq<char>) -> bool {
    exists|k: int| 0 <= k < a.cosignataires_ids@.len() && (#[trigger] a.cosignataires_ids@[k])@ == id
}

/// The counted amendments that the representative authored.
pub open spec fn authored_in(id: Seq<char>, windows: Seq<DateWindow>, undated: bool) -> spec_fn(
    Amendement,
) -> bool {
    |a: Amendement| amendement_in_windows(a, windows, undated) && authored_by(a, id)
}

/// The counted amendments that the representative authored and that were
/// adopted.
pub open spec fn adopted_in(id: Seq<char>, windows: Seq<DateWindow>, undated: bool) -> spec_fn(
    Amendement,
) -> bool {
    |a: Amendement| amendement_in_windows(a, windows, undated) && authored_by(a, id) && a.adopte
}

/// The counted amendments that the representative co-signed without being
/// their author.
pub open spec fn cosigned_in(id: Seq<char>, windows: Seq<DateWindow>, undated: bool) -> spec_fn(
    Amendement,
) -> bool {
    |a: Amendement|
        amendement_in_windows(a, windows, undated) && !authored_by(a, id) && among_cosigners(a, id)
}

/// The recorded position of a representative in a list of votes.
pub fn position_of(votes: &Vec<Vote>, id: &String) -> (r: Option<VotePosition>)
    ensures
        r == recorded_position(votes@, id@),
{
    let mut i: usize = 0;
    assert(votes@.skip(0) == votes@);
    while i < votes.len()
        invariant
            i <= votes.len(),
            recorded_position(votes@, id@) == recorded_position(votes@.skip(i as int), id@),
        decreases votes.len() - i,
    {
        if votes[i].deputy_id == *id {
            return Some(votes[i].position);
        }
        assert(votes@.skip(i as int).skip(1) == votes@.skip(i + 1));
        i += 1;
    }
    None
}

pub fn is_author(a: &Amendement, id: &String) -> (r: bool)
    ensures
        r == authored_by(*a, id@),
{
    match &a.auteur_id {
        Some(x) => *x == *id,
        None => false,
    }
}

pub fn is_cosigner(a: &Amendement, id: &String) -> (r: bool)
    ensures
        r == among_cosigners(*a, id@),
{
    let mut k: usize = 0;
    while k < a.cosignataires_ids.len()
        invariant
            k <= a.cosignataires_ids.len(),
            forall|j: int| 0 <= j < k ==> (#[trigger] a.cosignataires_ids@[j])@ != id@,
        decreases a.cosignataires_ids.len() - k,
    {
        if a.cosignataires_ids[k] == *id {
            return true;
        }
        k += 1;
    }
    false
}

pub fn is_scrutin_eligible(s: &Scrutin, windows: &Vec<DateWindow>) -> (r: bool)
    ensures
        r == scrutin_eligible(*s, windows@),
{
    match s.date {
        Some(d) => date_in_windows(d, windows),
        None => false,
    }
}

pub fn is_amendement_in_windows(a: &Amendement, windows: &Vec<DateWindow>, undated: bool) -> (r:
    bool)
    ensures
        r == amendement_in_windows(*a, windows@, undated),
{
    match a.date {
        Some(d) => date_in_windows(d, windows),
        None => undated && windows.len() > 0,
    }
}

/// The roll-call figures of one representative.
#[derive(Debug, Clone, Copy)]
pub struct VoteTally {
    pub eligibles: u32,
    pub pour: u32,
    pub contre: u32,
    pub abstention: u32,
    pub non_votant: u32,
    pub absent: u32,
}

/// Counts the eligible roll calls and, among them, the positions of the
/// representative.
pub fn tally_votes(id: &String, scrutins: &Vec<Scrutin>, windows: &Vec<DateWindow>) -> (t:
    VoteTally)
    requires
        scrutins.len() <= u32::MAX,
    ensures
        t.eligibles == count_if(scrutins@, eligible_scrutins(windows@)),
        t.pour == count_if(scrutins@, scrutins_cast(id@, windows@, VotePosition::Pour)),
        t.contre == count_if(scrutins@, scrutins_cast(id@, windows@, VotePosition::Contre)),
        t.abstention == count_if(
            scrutins@,
            scrutins_cast(id@, windows@, VotePosition::Abstention),
        ),
        t.non_votant == count_if(
            scrutins@,
            scrutins_cast(id@, windows@, VotePosition::NonVotant),
        ),
        t.absent == count_if(scrutins@, scrutins_cast(id@, windows@, VotePosition::Absent)),
        t.eligibles == t.pour + t.contre + t.abstention + t.non_votant + t.absent,
{
    let mut t = VoteTally { eligibles: 0, pour: 0, contre: 0, abstention: 0, non_votant: 0, absent: 0 };
    let mut i: usize = 0;
    while i < scrutins.len()
        invariant
            i <= scrutins.len(),
            scrutins.len() <= u32::MAX,
            t.eligibles <= i,
            t.eligibles == count_if(scrutins@.take(i as int), eligible_scrutins(windows@)),
            t.pour == count_if(
                scrutins@.take(i as int),
                scrutins_cast(id@, windows@, VotePosition::Pour),
            ),
            t.contre == count_if(
                scrutins@.take(i as int),
                scrutins_cast(id@, windows@, VotePosition::Contre),
            ),
            t.abstention == count_if(
                scrutins@.take(i as int),
                scrutins_cast(id@, windows@, VotePosition::Abstention),
            ),
            t.non_votant == count_if(
                scrutins@.take(i as int),
                scrutins_cast(id@, windows@, VotePosition::NonVotant),
            ),
            t.absent == count_if(
                scrutins@.take(i as int),
                scrutins_cast(id@, windows@, VotePosition::Absent),
            ),
            t.eligibles == t.pour + t.contre + t.abstention + t.non_votant + t.absent,
        decreases scrutins.len() - i,
    {
        proof {
            lemma_count_step(scrutins@, i as int, eligible_scrutins(windows@));
            lemma_count_step(scrutins@, i as int, scrutins_cast(id@, windows@, VotePosition::Pour));
            lemma_count_step(
                scrutins@,
                i as int,
                scrutins_cast(id@, windows@, VotePosition::Contre),
            );
            lemma_count_step(
                scrutins@,
                i as int,
                scrutins_cast(id@, windows@, VotePosition::Abstention),
            );
            lemma_count_step(
                scrutins@,
                i as int,
                scrutins_cast(id@, windows@, VotePosition::NonVotant),
            );
            lemma_count_step(
                scrutins@,
                i as int,
                scrutins_cast(id@, windows@, VotePosition::Absent),
            );
        }
        let s = &scrutins[i];
        if is_scrutin_eligible(s, windows) {
            t.eligibles = t.eligibles + 1;
            match position_of(&s.votes, id) {
                Some(VotePosition::Pour) => {
                    t.pour = t.pour + 1;
                },
                Some(VotePosition::Contre) => {
                    t.contre = t.contre + 1;
                },
                Some(VotePosition::Abstention) => {
                    t.abstention = t.abstention + 1;
                },
                Some(VotePosition::NonVotant) => {
                    t.non_votant = t.non_votant + 1;
                },
                Some(VotePosition::Absent) => {
                    t.absent = t.absent + 1;
                },
                None => {
                    t.absent = t.absent + 1;
                },
            }
        }
        i += 1;
    }
    assert(scrutins@.take(scrutins.len() as int) == scrutins@);
    t
}

/// The amendment figures of one representative.
#[derive(Debug, Clone, Copy)]
pub struct AmendementTally {
    pub authored: u32,
    pub adopted: u32,
    pub cosigned: u32,
}

/// Counts the amendments that the representative authored, those of them
/// that were adopted, and those that the representative only co-signed.
pub fn tally_amendements(
    id: &String,
    amendements: &Vec<Amendement>,
    windows: &Vec<DateWindow>,
    undated: bool,
) -> (t: AmendementTally)
    requires
        amendements.len() <= u32::MAX,
    ensures
        t.authored == count_if(amendements@, authored_in(id@, windows@, undated)),
        t.adopted == count_if(amendements@, adopted_in(id@, windows@, undated)),
        t.cosigned == count_if(amendements@, cosigned_in(id@, windows@, undated)),
        t.adopted <= t.authored,
{
    let mut t = AmendementTally { authored: 0, adopted: 0, cosigned: 0 };
    let mut i: usize = 0;
    while i < amendements.len()
        invariant
            i <= amendements.len(),
            amendements.len() <= u32::MAX,
            t.authored == count_if(
                amendements@.take(i as int),
                authored_in(id@, windows@, undated),
            ),
            t.adopted == count_if(amendements@.take(i as int), adopted_in(id@, windows@, undated)),
            t.cosigned == count_if(
                amendements@.take(i as int),
                cosigned_in(id@, windows@, undated),
            ),
            t.adopted <= t.authored,
        decreases amendements.len() - i,
    {
        proof {
            lemma_count_step(amendements@, i as int, authored_in(id@, windows@, undated));
            lemma_count_step(amendements@, i as int, adopted_in(id@, windows@, undated));
            lemma_count_step(amendements@, i as int, cosigned_in(id@, windows@, undated));
        }
        let a = &amendements[i];
        if is_amendement_in_windows(a, windows, undated) {
            if is_author(a, id) {
                t.authored = t.authored + 1;
                if a.adopte {
                    t.adopted = t.adopted + 1;
                }
            } else if is_cosigner(a, id) {
                t.cosigned = t.cosigned + 1;
            }
        }
        i += 1;
    }
    assert(amendements@.take(amendements.len() as int) == amendements@);
    t
}

/// Day number of 19 June 2022, the first day of the legislature.
pub const LEG17_START_DAYS: i32 = 738_325;

/// The limits under which the counts of a data set fit their integers.
pub open spec fn within_limits(raw: RawDataset) -> bool {
    &&& raw.scrutins@.len() + 2 * raw.amendements@.len() <= u32::MAX
    &&& cosign_limits(raw.deputes@, raw.amendements@)
}

/// The bounds that a record without any effective window reports: those
/// of the mandate of the record cut to the period, each end on its own.
pub open spec fn fallback_start(dep: Depute, p: PeriodBounds) -> Date {
    match dep.mandat_debut {
        Some(d) => if d.day() >= p.start.day() {
            d
        } else {
            p.start
        },
        None => p.start,
    }
}

pub open spec fn fallback_end(dep: Depute, p: PeriodBounds) -> Date {
    match dep.mandat_fin {
        Some(d) => if d.day() <= p.end.day() {
            d
        } else {
            p.end
        },
        None => p.end,
    }
}

/// The co-signature part of the record: empty where the representative has
/// no effective window or no partner, else the partners over the period.
pub open spec fn cosign_part(
    top: Seq<TopCosignataire>,
    network: Option<CosignNetworkStats>,
    raw: RawDataset,
    i: int,
    p: PeriodBounds,
    active: bool,
) -> bool {
    if !active || no_partner(raw.deputes@, raw.amendements@, p, i) {
        top.len() == 0 && network is None
    } else {
        let row = pair_row_u32(raw.deputes@, raw.amendements@, p, i);
        &&& network matches Some(net) && is_network(net, raw.deputes@, row, i)
        &&& is_top_cosignataires(top, raw.deputes@, row)
    }
}

/// `st` is the record of representative `i` of the data set for the
/// period.
pub open spec fn is_stats_of(st: DeputeStats, raw: RawDataset, i: int, p: PeriodBounds) -> bool {
    let dep = raw.deputes@[i];
    let id = dep.id@;
    let ws = effective_windows(dep, p.start, p.end);
    let scrutins = raw.scrutins@;
    let amds = raw.amendements@;
    &&& st.identity() == dep.identity()
    &&& st.period_start == if ws.len() > 0 {
        ws.first().start
    } else {
        fallback_start(dep, p)
    }
    &&& st.period_end == if ws.len() > 0 {
        ws.last().end
    } else {
        fallback_end(dep, p)
    }
    &&& st.scrutins_eligibles == count_if(scrutins, eligible_scrutins(ws))
    &&& st.pour_count == count_if(scrutins, scrutins_cast(id, ws, VotePosition::Pour))
    &&& st.contre_count == count_if(scrutins, scrutins_cast(id, ws, VotePosition::Contre))
    &&& st.abst_count == count_if(scrutins, scrutins_cast(id, ws, VotePosition::Abstention))
    &&& st.non_votant == count_if(scrutins, scrutins_cast(id, ws, VotePosition::NonVotant))
    &&& st.absent == count_if(scrutins, scrutins_cast(id, ws, VotePosition::Absent))
    &&& st.votes_exprimes == st.pour_count + st.contre_count + st.abst_count
    &&& st.scrutins_eligibles == st.votes_exprimes + st.non_votant + st.absent
    &&& st.amd_authored == count_if(amds, authored_in(id, ws, p.include_undated))
    &&& st.amd_adopted == count_if(amds, adopted_in(id, ws, p.include_undated))
    &&& st.amd_cosigned == count_if(amds, cosigned_in(id, ws, p.include_undated))
    &&& st.amd_adopted <= st.amd_authored
    &&& st.interventions_count == 0
    &&& st.interventions_chars == 0
    &&& is_top_dossiers(
        st.top_dossiers@,
        Activity {
            scrutins,
            amendements: amds,
            id,
            windows: ws,
            undated: p.include_undated,
        },
        raw.dossiers@,
    )
    &&& cosign_part(st.top_cosignataires@, st.cosign_network, raw, i, p, ws.len() > 0)
    &&& ws.len() == 0 ==> st.scrutins_eligibles == 0 && st.amd_authored == 0 && st.amd_cosigned
        == 0 && st.top_dossiers@.len() == 0
}

fn bound_start(dep: &Depute, p: &PeriodBounds) -> (r: Date)
    ensures
        r == fallback_start(*dep, *p),
{
    match dep.mandat_debut {
        Some(d) => d.latest(p.start),
        None => p.start,
    }
}

fn bound_end(dep: &Depute, p: &PeriodBounds) -> (r: Date)
    ensures
        r == fallback_end(*dep, *p),
{
    match dep.mandat_fin {
        Some(d) => d.earliest(p.end),
        None => p.end,
    }
}

/// The record of representative `i` for a period. A representative
/// without any effective window in the period gets a record all the same,
/// with every figure at zero.
pub fn compute_depute_stats(i: usize, raw: &RawDataset, p: &PeriodBounds) -> (st: DeputeStats)
    requires
        i < raw.deputes@.len(),
        within_limits(*raw),
        distinct_ids(raw.deputes@),
    ensures
        is_stats_of(st, *raw, i as int, *p),
{
    let dep = &raw.deputes[i];
    let windows = effective_mandate_windows(dep, p.start, p.end);
    let n = windows.len();
    let period_start = if n > 0 {
        windows[0].start
    } else {
        bound_start(dep, p)
    };
    let period_end = if n > 0 {
        windows[n - 1].end
    } else {
        bound_end(dep, p)
    };
    let votes = tally_votes(&dep.id, &raw.scrutins, &windows);
    let amds = tally_amendements(&dep.id, &raw.amendements, &windows, p.include_undated);
    let top = top_dossiers(
        &dep.id,
        &raw.scrutins,
        &raw.amendements,
        &raw.dossiers,
        &windows,
        p.include_undated,
    );
    let ghost act = Activity {
        scrutins: raw.scrutins@,
        amendements: raw.amendements@,
        id: dep.id@,
        windows: windows@,
        undated: p.include_undated,
    };
    proof {
        if n == 0 {
            assert(windows@ =~= Seq::<DateWindow>::empty());
            lemma_nothing_without_windows(*raw, dep.id@, p.include_undated);
            if top@.len() > 0 {
                let d = top@[0].dossier_id@;
                assert(crate::dossiers::entry_matches(top@[0], act, raw.dossiers@));
                lemma_no_activity_without_windows(*raw, dep.id@, p.include_undated, d);
            }
        }
    }
    let (top_cosignataires, cosign_network) = if n > 0 {
        match cosign_entry(i, &raw.deputes, &raw.amendements, p) {
            Some(e) => (e.top, Some(e.network)),
            None => (Vec::new(), None),
        }
    } else {
        (Vec::new(), None)
    };
    DeputeStats {
        deputy_id: dep.id.clone(),
        nom: dep.nom.clone(),
        prenom: dep.prenom.clone(),
        groupe_abrev: clone_opt(&dep.groupe_abrev),
        groupe_nom: clone_opt(&dep.groupe_nom),
        parti_rattachement: clone_opt(&dep.parti_nom),
        dept: clone_opt(&dep.dept_nom),
        circo: clone_opt(&dep.circo),
        mandat_debut: dep.mandat_debut,
        mandat_fin: dep.mandat_fin,
        mandat_debut_legislature: dep.mandat_debut_legislature,
        mandat_assemblee_episodes: clone_episodes(&dep.mandat_assemblee_episodes),
        date_naissance: dep.date_naissance,
        sexe: clone_opt(&dep.sexe),
        pays_naissance: clone_opt(&dep.pays_naissance),
        profession: clone_opt(&dep.profession),
        email_assemblee: clone_opt(&dep.email_assemblee),
        site_web: clone_opt(&dep.site_web),
        sites_web: clone_texts(&dep.sites_web),
        sites_web_sources: clone_sources(&dep.sites_web_sources),
        telephones: clone_texts(&dep.telephones),
        uri_hatvp: clone_opt(&dep.uri_hatvp),
        period_start,
        period_end,
        scrutins_eligibles: votes.eligibles,
        votes_exprimes: votes.pour + votes.contre + votes.abstention,
        non_votant: votes.non_votant,
        absent: votes.absent,
        pour_count: votes.pour,
        contre_count: votes.contre,
        abst_count: votes.abstention,
        amd_authored: amds.authored,
        amd_adopted: amds.adopted,
        amd_cosigned: amds.cosigned,
        interventions_count: 0,
        interventions_chars: 0,
        top_dossiers: top,
        top_cosignataires,
        cosign_network,
    }
}

/// Without a window nothing is eligible.
proof fn lemma_nothing_without_windows(raw: RawDataset, id: Seq<char>, undated: bool)
    ensures
        count_if(raw.scrutins@, eligible_scrutins(Seq::<DateWindow>::empty())) == 0,
        count_if(raw.amendements@, authored_in(id, Seq::<DateWindow>::empty(), undated)) == 0,
        count_if(raw.amendements@, cosigned_in(id, Seq::<DateWindow>::empty(), undated)) == 0,
{
    let none = Seq::<DateWindow>::empty();
    crate::counting::lemma_count_zero(raw.scrutins@, eligible_scrutins(none));
    crate::counting::lemma_count_zero(raw.amendements@, authored_in(id, none, undated));
    crate::counting::lemma_count_zero(raw.amendements@, cosigned_in(id, none, undated));
}

proof fn lemma_no_activity_without_windows(
    raw: RawDataset,
    id: Seq<char>,
    undated: bool,
    d: Seq<char>,
)
    ensures
        (Activity {
            scrutins: raw.scrutins@,
            amendements: raw.amendements@,
            id,
            windows: Seq::<DateWindow>::empty(),
            undated,
        }).score(d) == 0,
{
    let none = Seq::<DateWindow>::empty();
    crate::counting::lemma_count_zero(raw.scrutins@, crate::dossiers::votes_on(id, none, d));
    crate::counting::lemma_count_zero(
        raw.amendements@,
        crate::dossiers::amendements_on(id, none, undated, d),
    );
}

/// The records of all representatives for a period, in the order of the
/// representatives.
pub fn compute_period(raw: &RawDataset, p: &PeriodBounds) -> (out: Vec<DeputeStats>)
    requires
        within_limits(*raw),
        distinct_ids(raw.deputes@),
    ensures
        out@.len() == raw.deputes@.len(),
        forall|i: int| 0 <= i < out@.len() ==> is_stats_of(#[trigger] out@[i], *raw, i, *p),
{
    let mut out: Vec<DeputeStats> = Vec::new();
    let mut i: usize = 0;
    while i < raw.deputes.len()
        invariant
            i <= raw.deputes@.len(),
            within_limits(*raw),
            distinct_ids(raw.deputes@),
            out@.len() == i,
            forall|k: int| 0 <= k < i ==> is_stats_of(#[trigger] out@[k], *raw, k, *p),
        decreases raw.deputes@.len() - i,
    {
        out.push(compute_depute_stats(i, raw, p));
        i += 1;
    }
    out
}

/// The records of the three periods: the last 30 days, the last 180 days,
/// and the legislature to date; with them the registry and the legislative
/// files that they were computed from.
pub struct AllAggregates {
    pub p30: Vec<DeputeStats>,
    pub p180: Vec<DeputeStats>,
    pub leg: Vec<DeputeStats>,
    pub deputes: Vec<Depute>,
    pub dossiers: Vec<Dossier>,
}

/// The period of the `days` days before `today`, without undated
/// amendments.
pub open spec fn rolling_period(today: Date, days: int) -> PeriodBounds {
    PeriodBounds { start: Date::at(today.day() - days), end: today, include_undated: false }
}

/// The period from the first day of the legislature to `today`, with the
/// undated amendments.
pub open spec fn term_period(today: Date) -> PeriodBounds {
    PeriodBounds { start: Date::at(LEG17_START_DAYS as int), end: today, include_undated: true }
}

/// Every record of the list is that of the representative at the same
/// position, for the period.
pub open spec fn are_stats_of(out: Seq<DeputeStats>, raw: RawDataset, p: PeriodBounds) -> bool {
    &&& out.len() == raw.deputes@.len()
    &&& forall|i: int| 0 <= i < out.len() ==> is_stats_of(#[trigger] out[i], raw, i, p)
}

/// Computes the records of all representatives over the three periods that
/// end today.
pub fn compute_all(raw: &RawDataset, today: Date) -> (agg: AllAggregates)
    requires
        within_limits(*raw),
        distinct_ids(raw.deputes@),
        today.day() - 180 >= DATE_MIN_DAYS,
    ensures
        are_stats_of(agg.p30@, *raw, rolling_period(today, 30)),
        are_stats_of(agg.p180@, *raw, rolling_period(today, 180)),
        are_stats_of(agg.leg@, *raw, term_period(today)),
        depute_records(agg.deputes@) == depute_records(raw.deputes@),
        dossier_records(agg.dossiers@) == dossier_records(raw.dossiers@),
{
    let p30 = PeriodBounds { start: days_before(today, 30), end: today, include_undated: false };
    let p180 = PeriodBounds { start: days_before(today, 180), end: today, include_undated: false };
    let leg = PeriodBounds { start: legislature_start(), end: today, include_undated: true };
    let a = compute_period(raw, &p30);
    let b = compute_period(raw, &p180);
    let c = compute_period(raw, &leg);
    AllAggregates {
        p30: a,
        p180: b,
        leg: c,
        deputes: clone_deputes(&raw.deputes),
        dossiers: clone_dossiers(&raw.dossiers),
    }
}

fn days_before(today: Date, n: u32) -> (r: Date)
    requires
        today.day() - n >= DATE_MIN_DAYS,
    ensures
        r == Date::at(today.day() - n),
{
    match today.minus_days(n) {
        Some(d) => d,
        None => today,
    }
}

/// The first day of the legislature.
pub fn legislature_start() -> (r: Date)
    ensures
        r.day() == LEG17_START_DAYS,
        r == Date::at(LEG17_START_DAYS as int),
{
    match Date::from_days(LEG17_START_DAYS) {
        Some(d) => d,
        None => {
            assert(false);
            unreached()
        },
    }
}

} // verus!
