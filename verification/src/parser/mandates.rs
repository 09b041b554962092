//! The mandates of a representative: the seat in the assembly, the group
//! and the party.

use vstd::prelude::*;
use crate::dates::{opt_date_before, opt_date_lt, Date};
use crate::json::Json;
use crate::models::{MandatAssembleeEpisode, Organe};
use crate::parser::records::{date_at, or_else, text_at};
use crate::parser::{is_type_organe_assemblee, names_assemblee, parse_date};
use crate::sorting::{sort_by, stable_sorted, total_preorder};
use crate::text::{clone_opt, opt_text, str_eq};

verus! {

/// The first body with the id.
pub open spec fn organe_with(organes: Seq<Organe>, id: Seq<char>) -> Option<Organe>
    decreases organes.len(),
{
    if organes.len() == 0 {
        None
    } else if organes[0].id@ == id {
        Some(organes[0])
    } else {
        organe_with(organes.skip(1), id)
    }
}

pub fn find_organe<'a>(organes: &'a Vec<Organe>, id: &String) -> (r: Option<&'a Organe>)
    ensures
        match r {
            Some(o) => organe_with(organes@, id@) == Some(*o),
            None => organe_with(organes@, id@).is_none(),
        },
{
    let mut i: usize = 0;
    assert(organes@.skip(0) == organes@);
    while i < organes.len()
        invariant
            i <= organes@.len(),
            organe_with(organes@, id@) == organe_with(organes@.skip(i as int), id@),
        decreases organes@.len() - i,
    {
        assert(organes@.skip(i as int)[0] == organes@[i as int]);
        if organes[i].id == *id {
            return Some(&organes[i]);
        }
        assert(organes@.skip(i as int).skip(1) == organes@.skip(i + 1));
        i += 1;
    }
    None
}

/// What has been gathered from the mandates of a representative.
pub struct MandateState {
    pub dept_code: Option<Seq<char>>,
    pub dept_nom: Option<Seq<char>>,
    pub circo: Option<Seq<char>>,
    pub debut: Option<Date>,
    pub fin: Option<Date>,
    /// How well the chosen mandate matches: 2 for a parliamentary mandate
    /// at the assembly, 1 for any mandate at the assembly, 0 for none.
    pub level: int,
    pub active: bool,
    pub windows_level: int,
    pub windows: Seq<(Option<Date>, Option<Date>)>,
    pub groupe_id: Option<Seq<char>>,
    pub groupe_abrev: Option<Seq<char>>,
    pub groupe_nom: Option<Seq<char>>,
    pub groupe_debut: Option<Date>,
    /// The group held is a running membership.
    pub groupe_active: bool,
    pub parti_id: Option<Seq<char>>,
    pub parti_nom: Option<Seq<char>>,
    pub parti_debut: Option<Date>,
    /// The party held is a running membership.
    pub parti_active: bool,
}

pub open spec fn no_mandate() -> MandateState {
    MandateState {
        dept_code: None,
        dept_nom: None,
        circo: None,
        debut: None,
        fin: None,
        level: 0,
        active: false,
        windows_level: 0,
        windows: Seq::empty(),
        groupe_id: None,
        groupe_abrev: None,
        groupe_nom: None,
        groupe_debut: None,
        groupe_active: false,
        parti_id: None,
        parti_nom: None,
        parti_debut: None,
        parti_active: false,
    }
}

pub open spec fn organ_type(m: Json) -> Seq<char> {
    match text_at(m, "typeOrgane"@) {
        Some(s) => s,
        None => Seq::empty(),
    }
}

/// The mandate is a parliamentary mandate at the assembly.
pub open spec fn mandat_parlementaire_assemblee(m: Json) -> bool {
    text_at(m, "@xsi:type"@) == Some("MandatParlementaire_type"@) && names_assemblee(organ_type(m))
}

/// How well a mandate matches the seat in the assembly.
pub open spec fn mandate_level(m: Json) -> int {
    if mandat_parlementaire_assemblee(m) {
        2
    } else if names_assemblee(organ_type(m)) {
        1
    } else {
        0
    }
}

/// The state after a mandate at the assembly: the mandate joins the
/// windows of its level, and is chosen where it matches better than the
/// one chosen so far, or as well and is running where that one is over, or
/// as well, running or over alike, and began later.
pub open spec fn after_seat(st: MandateState, m: Json) -> MandateState {
    let level = mandate_level(m);
    let debut = date_at(m, "dateDebut"@);
    let fin = date_at(m, "dateFin"@);
    let lieu = m.at("election"@).at("lieu"@);
    let windows_level = if level > st.windows_level {
        level
    } else {
        st.windows_level
    };
    let kept = if level > st.windows_level {
        Seq::empty()
    } else {
        st.windows
    };
    let windows = if level == windows_level {
        kept.push((debut, fin))
    } else {
        kept
    };
    let active = fin is None;
    let take = level > st.level || (level == st.level && active && !st.active) || (level
        == st.level && active == st.active && opt_date_lt(st.debut, debut));
    if level == 0 {
        st
    } else if take {
        MandateState {
            dept_code: or_else(
                or_else(text_at(lieu, "numDepartement"@), text_at(lieu, "numDpt"@)),
                st.dept_code,
            ),
            dept_nom: or_else(
                or_else(text_at(lieu, "departement"@), text_at(lieu, "nomDpt"@)),
                st.dept_nom,
            ),
            circo: or_else(text_at(lieu, "numCirco"@), st.circo),
            debut,
            fin,
            level,
            active,
            windows_level,
            windows,
            ..st
        }
    } else {
        MandateState { windows_level, windows, ..st }
    }
}

/// A membership replaces the one held so far when none is held, when it is
/// running and the one held is over, or when both are running or both are
/// over and it began later.
pub open spec fn replaces(m: Json, held: bool, held_active: bool, since: Option<Date>) -> bool {
    let active = date_at(m, "dateFin"@) is None;
    !held || (active && !held_active) || (active == held_active && opt_date_lt(
        since,
        date_at(m, "dateDebut"@),
    ))
}

/// The state after a membership of a group. The group must be among the
/// bodies.
pub open spec fn after_group(st: MandateState, m: Json, organes: Seq<Organe>) -> MandateState {
    match m.at("organes"@).at("organeRef"@).text() {
        Some(id) => match organe_with(organes, id) {
            Some(org) => if organ_type(m) == "GP"@ && replaces(
                m,
                st.groupe_id is Some,
                st.groupe_active,
                st.groupe_debut,
            ) {
                MandateState {
                    groupe_id: Some(id),
                    groupe_abrev: opt_text(org.abrev),
                    groupe_nom: Some(org.libelle@),
                    groupe_debut: date_at(m, "dateDebut"@),
                    groupe_active: date_at(m, "dateFin"@) is None,
                    ..st
                }
            } else {
                st
            },
            None => st,
        },
        None => st,
    }
}

/// The state after a membership of a party. The name of the party is
/// known where the party is among the bodies.
pub open spec fn after_party(st: MandateState, m: Json, organes: Seq<Organe>) -> MandateState {
    match m.at("organes"@).at("organeRef"@).text() {
        Some(id) => if organ_type(m) == "PARPOL"@ && replaces(
            m,
            st.parti_id is Some,
            st.parti_active,
            st.parti_debut,
        ) {
            MandateState {
                parti_id: Some(id),
                parti_debut: date_at(m, "dateDebut"@),
                parti_active: date_at(m, "dateFin"@) is None,
                parti_nom: match organe_with(organes, id) {
                    Some(org) => Some(org.libelle@),
                    None => st.parti_nom,
                },
                ..st
            }
        } else {
            st
        },
        None => st,
    }
}

pub open spec fn after_mandate(st: MandateState, m: Json, organes: Seq<Organe>) -> MandateState {
    after_party(after_group(after_seat(st, m), m, organes), m, organes)
}

/// What the mandates of a representative give, taken in order.
pub open spec fn scan_mandates(mandats: Seq<Json>, organes: Seq<Organe>) -> MandateState
    decreases mandats.len(),
{
    if mandats.len() == 0 {
        no_mandate()
    } else {
        after_mandate(scan_mandates(mandats.drop_last(), organes), mandats.last(), organes)
    }
}

/// The mandates gathered so far, as they are read.
pub struct Mandates {
    pub dept_code: Option<String>,
    pub dept_nom: Option<String>,
    pub circo: Option<String>,
    pub debut: Option<Date>,
    pub fin: Option<Date>,
    pub level: u8,
    pub active: bool,
    pub windows_level: u8,
    pub windows: Vec<(Option<Date>, Option<Date>)>,
    pub groupe_id: Option<String>,
    pub groupe_abrev: Option<String>,
    pub groupe_nom: Option<String>,
    pub groupe_debut: Option<Date>,
    /// The group held is a running membership.
    pub groupe_active: bool,
    pub parti_id: Option<String>,
    pub parti_nom: Option<String>,
    pub parti_debut: Option<Date>,
    /// The party held is a running membership.
    pub parti_active: bool,
}

impl Mandates {
    pub open spec fn view(self) -> MandateState {
        MandateState {
            dept_code: opt_text(self.dept_code),
            dept_nom: opt_text(self.dept_nom),
            circo: opt_text(self.circo),
            debut: self.debut,
            fin: self.fin,
            level: self.level as int,
            active: self.active,
            windows_level: self.windows_level as int,
            windows: self.windows@,
            groupe_id: opt_text(self.groupe_id),
            groupe_abrev: opt_text(self.groupe_abrev),
            groupe_nom: opt_text(self.groupe_nom),
            groupe_debut: self.groupe_debut,
            groupe_active: self.groupe_active,
            parti_id: opt_text(self.parti_id),
            parti_nom: opt_text(self.parti_nom),
            parti_debut: self.parti_debut,
            parti_active: self.parti_active,
        }
    }
}

fn organ_type_of(m: &Json) -> (r: String)
    ensures
        r@ == organ_type(*m),
{
    match m.get("typeOrgane").string() {
        Some(s) => s,
        None => String::new(),
    }
}

pub fn is_mandat_parlementaire_assemblee(m: &Json) -> (r: bool)
    ensures
        r == mandat_parlementaire_assemblee(*m),
{
    let of_type = match m.get("@xsi:type").as_str() {
        Some(s) => str_eq(s.as_str(), "MandatParlementaire_type"),
        None => false,
    };
    of_type && is_type_organe_assemblee(organ_type_of(m).as_str())
}

fn level_of(m: &Json) -> (r: u8)
    ensures
        r == mandate_level(*m),
{
    if is_mandat_parlementaire_assemblee(m) {
        2
    } else if is_type_organe_assemblee(organ_type_of(m).as_str()) {
        1
    } else {
        0
    }
}

fn date_of_member(m: &Json, key: &str) -> (r: Option<Date>)
    ensures
        r == date_at(*m, key@),
{
    match m.get(key).as_str() {
        Some(t) => parse_date(t.as_str()),
        None => None,
    }
}

fn first_of(a: Option<String>, b: Option<String>) -> (r: Option<String>)
    ensures
        opt_text(r) == or_else(opt_text(a), opt_text(b)),
{
    match a {
        Some(x) => Some(x),
        None => b,
    }
}

fn seat(st: Mandates, m: &Json) -> (r: Mandates)
    requires
        st.level <= 2,
        st.windows_level <= 2,
    ensures
        r@ == after_seat(st@, *m),
        r.level <= 2,
        r.windows_level <= 2,
{
    let level = level_of(m);
    if level == 0 {
        return st;
    }
    let mut st = st;
    let ghost given = st@;
    let debut = date_of_member(m, "dateDebut");
    let fin = date_of_member(m, "dateFin");
    if level > st.windows_level {
        st.windows_level = level;
        st.windows = Vec::new();
    }
    if level == st.windows_level {
        st.windows.push((debut, fin));
    }
    let active = fin.is_none();
    let take = level > st.level || (level == st.level && active && !st.active) || (level
        == st.level && active == st.active && opt_date_before(&st.debut, &debut));
    if take {
        let lieu = m.get("election").get("lieu");
        st.dept_code =
        first_of(
            first_of(lieu.get("numDepartement").string(), lieu.get("numDpt").string()),
            st.dept_code,
        );
        st.dept_nom =
        first_of(
            first_of(lieu.get("departement").string(), lieu.get("nomDpt").string()),
            st.dept_nom,
        );
        st.circo = first_of(lieu.get("numCirco").string(), st.circo);
        st.debut = debut;
        st.fin = fin;
        st.level = level;
        st.active = active;
    }
    proof {
        assert(st@.windows =~= after_seat(given, *m).windows);
    }
    st
}

fn does_replace(m: &Json, held: bool, held_active: bool, since: &Option<Date>) -> (r: bool)
    ensures
        r == replaces(*m, held, held_active, *since),
{
    let debut = date_of_member(m, "dateDebut");
    let active = date_of_member(m, "dateFin").is_none();
    !held || (active && !held_active) || (active == held_active && opt_date_before(since, &debut))
}

fn group(st: Mandates, m: &Json, organes: &Vec<Organe>) -> (r: Mandates)
    ensures
        r@ == after_group(st@, *m, organes@),
        r.level == st.level,
        r.windows_level == st.windows_level,
{
    if !str_eq(organ_type_of(m).as_str(), "GP") {
        return st;
    }
    if !does_replace(m, st.groupe_id.is_some(), st.groupe_active, &st.groupe_debut) {
        return st;
    }
    let id = match m.get("organes").get("organeRef").string() {
        Some(id) => id,
        None => {
            return st;
        },
    };
    match find_organe(organes, &id) {
        Some(org) => {
            let mut st = st;
            st.groupe_abrev = clone_opt(&org.abrev);
            st.groupe_nom = Some(org.libelle.clone());
            st.groupe_id = Some(id);
            st.groupe_debut = date_of_member(m, "dateDebut");
            st.groupe_active = date_of_member(m, "dateFin").is_none();
            st
        },
        None => st,
    }
}

fn party(st: Mandates, m: &Json, organes: &Vec<Organe>) -> (r: Mandates)
    ensures
        r@ == after_party(st@, *m, organes@),
        r.level == st.level,
        r.windows_level == st.windows_level,
{
    if !str_eq(organ_type_of(m).as_str(), "PARPOL") {
        return st;
    }
    if !does_replace(m, st.parti_id.is_some(), st.parti_active, &st.parti_debut) {
        return st;
    }
    let id = match m.get("organes").get("organeRef").string() {
        Some(id) => id,
        None => {
            return st;
        },
    };
    let mut st = st;
    match find_organe(organes, &id) {
        Some(org) => {
            st.parti_nom = Some(org.libelle.clone());
        },
        None => {},
    }
    st.parti_id = Some(id);
    st.parti_debut = date_of_member(m, "dateDebut");
    st.parti_active = date_of_member(m, "dateFin").is_none();
    st
}

/// Gathers what the mandates of a representative give.
pub(crate) fn read_mandates(mandats: &Vec<&Json>, organes: &Vec<Organe>, Ghost(items): Ghost<Seq<Json>>)
    -> (r: Mandates)
    requires
        mandats@.len() == items.len(),
        forall|i: int| 0 <= i < mandats@.len() ==> *(#[trigger] mandats@[i]) == items[i],
    ensures
        r@ == scan_mandates(items, organes@),
{
    let mut st = Mandates {
        dept_code: None,
        dept_nom: None,
        circo: None,
        debut: None,
        fin: None,
        level: 0,
        active: false,
        windows_level: 0,
        windows: Vec::new(),
        groupe_id: None,
        groupe_abrev: None,
        groupe_nom: None,
        groupe_debut: None,
        groupe_active: false,
        parti_id: None,
        parti_nom: None,
        parti_debut: None,
        parti_active: false,
    };
    let mut i: usize = 0;
    assert(items.take(0).len() == 0);
    assert(st@.windows =~= no_mandate().windows);
    while i < mandats.len()
        invariant
            i <= mandats@.len(),
            mandats@.len() == items.len(),
            forall|k: int| 0 <= k < mandats@.len() ==> *(#[trigger] mandats@[k]) == items[k],
            st.level <= 2,
            st.windows_level <= 2,
            st@ == scan_mandates(items.take(i as int), organes@),
        decreases mandats@.len() - i,
    {
        proof {
            assert(items.take(i + 1).drop_last() == items.take(i as int));
            assert(items.take(i + 1).last() == *mandats@[i as int]);
        }
        let m = mandats[i];
        st = party(group(seat(st, m), m, organes), m, organes);
        i += 1;
    }
    assert(items.take(items.len() as int) == items);
    st
}

/// The windows that have a first day, as episodes.
pub open spec fn started(windows: Seq<(Option<Date>, Option<Date>)>) -> Seq<MandatAssembleeEpisode>
    decreases windows.len(),
{
    if windows.len() == 0 {
        Seq::empty()
    } else {
        let head = started(windows.drop_last());
        match windows.last().0 {
            Some(d) => head.push(MandatAssembleeEpisode { date_debut: d, date_fin: windows.last().1 }),
            None => head,
        }
    }
}

/// The order of the episodes: by first day, then by last day, a running
/// episode first.
pub open spec fn episode_leq(a: MandatAssembleeEpisode, b: MandatAssembleeEpisode) -> bool {
    a.date_debut.day() < b.date_debut.day() || (a.date_debut.day() == b.date_debut.day()
        && !opt_date_lt(b.date_fin, a.date_fin))
}

pub open spec fn episode_order() -> spec_fn(MandatAssembleeEpisode, MandatAssembleeEpisode) -> bool {
    |a: MandatAssembleeEpisode, b: MandatAssembleeEpisode| episode_leq(a, b)
}

/// The list without the items that repeat their predecessor.
pub open spec fn dedup_adjacent(s: Seq<MandatAssembleeEpisode>) -> Seq<MandatAssembleeEpisode>
    decreases s.len(),
{
    if s.len() == 0 {
        s
    } else if s.len() >= 2 && s[s.len() - 2] == s.last() {
        dedup_adjacent(s.drop_last())
    } else {
        dedup_adjacent(s.drop_last()).push(s.last())
    }
}

/// The episodes of the seat in the assembly: the windows that have a
/// first day, in order, each once.
pub open spec fn episodes_of(windows: Seq<(Option<Date>, Option<Date>)>) -> Seq<
    MandatAssembleeEpisode,
> {
    dedup_adjacent(stable_sorted(started(windows), episode_order()))
}

proof fn lemma_episode_order()
    ensures
        total_preorder(episode_order()),
{
}

fn same_episode(a: &MandatAssembleeEpisode, b: &MandatAssembleeEpisode) -> (r: bool)
    ensures
        r == (*a == *b),
{
    let same_end = match (&a.date_fin, &b.date_fin) {
        (Some(x), Some(y)) => x.same_day(y),
        (None, None) => true,
        _ => false,
    };
    a.date_debut.same_day(&b.date_debut) && same_end
}

/// The episodes of the seat in the assembly.
pub fn read_episodes(windows: &Vec<(Option<Date>, Option<Date>)>) -> (r: Vec<MandatAssembleeEpisode>)
    ensures
        r@ == episodes_of(windows@),
{
    let mut episodes: Vec<MandatAssembleeEpisode> = Vec::new();
    let mut i: usize = 0;
    assert(windows@.take(0).len() == 0);
    while i < windows.len()
        invariant
            i <= windows@.len(),
            episodes@ == started(windows@.take(i as int)),
        decreases windows@.len() - i,
    {
        proof {
            assert(windows@.take(i + 1).drop_last() == windows@.take(i as int));
            assert(windows@.take(i + 1).last() == windows@[i as int]);
        }
        match windows[i].0 {
            Some(d) => {
                episodes.push(MandatAssembleeEpisode { date_debut: d, date_fin: windows[i].1 });
            },
            None => {},
        }
        i += 1;
    }
    assert(windows@.take(windows@.len() as int) == windows@);
    proof {
        lemma_episode_order();
    }
    let le = |a: &MandatAssembleeEpisode, b: &MandatAssembleeEpisode| -> (r: bool)
        ensures
            r == episode_leq(*a, *b),
        {
            a.date_debut.before(&b.date_debut) || (a.date_debut.same_day(&b.date_debut)
                && !opt_date_before(&b.date_fin, &a.date_fin))
        };
    sort_by(&mut episodes, le, Ghost(episode_order()));
    let mut r: Vec<MandatAssembleeEpisode> = Vec::new();
    let mut k: usize = 0;
    assert(episodes@.take(0).len() == 0);
    while k < episodes.len()
        invariant
            k <= episodes@.len(),
            r@ == dedup_adjacent(episodes@.take(k as int)),
        decreases episodes@.len() - k,
    {
        proof {
            assert(episodes@.take(k + 1).drop_last() == episodes@.take(k as int));
            assert(episodes@.take(k + 1).last() == episodes@[k as int]);
            if k > 0 {
                assert(episodes@.take(k + 1)[k - 1] == episodes@[k - 1]);
            }
        }
        if !(k > 0 && same_episode(&episodes[k - 1], &episodes[k])) {
            r.push(episodes[k]);
        }
        k += 1;
    }
    assert(episodes@.take(episodes@.len() as int) == episodes@);
    r
}

} // verus!
