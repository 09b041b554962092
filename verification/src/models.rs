//! The normalised records of the pipeline and its aggregate outputs.

use vstd::prelude::*;
use crate::dates::Date;
use crate::parser::contact::source_views;
use crate::parser::texts;
use crate::text::{clone_opt, opt_text};

verus! {

/// A web address of a representative as the registry gives it, with the
/// address derived from it.
#[derive(Debug, Clone)]
pub struct SiteWebSource {
    pub type_libelle: Option<String>,
    pub val_elec: String,
    pub url: Option<String>,
}

/// One contiguous stay in the assembly; an episode without an end is still
/// running.
#[derive(Debug, Clone, Copy)]
pub struct MandatAssembleeEpisode {
    pub date_debut: Date,
    pub date_fin: Option<Date>,
}

/// A representative.
#[derive(Debug, Clone)]
pub struct Depute {
    pub id: String,
    pub nom: String,
    pub prenom: String,
    pub date_naissance: Option<Date>,
    pub sexe: Option<String>,
    pub pays_naissance: Option<String>,
    pub profession: Option<String>,
    pub dept_code: Option<String>,
    pub dept_nom: Option<String>,
    pub circo: Option<String>,
    pub mandat_debut: Option<Date>,
    pub mandat_fin: Option<Date>,
    pub mandat_debut_legislature: Option<Date>,
    pub mandat_assemblee_episodes: Vec<MandatAssembleeEpisode>,
    pub groupe_id: Option<String>,
    pub groupe_abrev: Option<String>,
    pub groupe_nom: Option<String>,
    pub parti_id: Option<String>,
    pub parti_nom: Option<String>,
    pub email_assemblee: Option<String>,
    pub site_web: Option<String>,
    pub sites_web: Vec<String>,
    pub sites_web_sources: Vec<SiteWebSource>,
    pub telephones: Vec<String>,
    pub uri_hatvp: Option<String>,
}

/// A body (group, party, ...) that affiliations refer to.
#[derive(Debug, Clone)]
pub struct Organe {
    pub id: String,
    pub code_type: String,
    pub libelle: String,
    pub abrev: Option<String>,
    pub couleur: Option<String>,
}

/// The position of one representative in one roll call.
#[derive(Debug, Clone, Copy, PartialEq, Eq, Structural)]
pub enum VotePosition {
    Pour,
    Contre,
    Abstention,
    NonVotant,
    Absent,
}

/// One recorded position: who, and how they voted.
#[derive(Debug, Clone)]
pub struct Vote {
    pub deputy_id: String,
    pub position: VotePosition,
}

/// A roll call. `votes` holds at most one entry per representative; a
/// representative without an entry has no recorded position.
#[derive(Debug, Clone)]
pub struct Scrutin {
    pub id: String,
    pub numero: u32,
    pub titre: String,
    pub date: Option<Date>,
    pub sort: Option<String>,
    pub dossier_ref: Option<String>,
    pub votes: Vec<Vote>,
}

#[derive(Debug, Clone)]
pub struct Amendement {
    pub id: String,
    pub numero: Option<String>,
    pub auteur_id: Option<String>,
    pub auteur_type: Option<String>,
    pub cosignataires_ids: Vec<String>,
    pub sort: Option<String>,
    /// The date the aggregates go by: the first that is present of deposit,
    /// circulation, outcome, examination, any other.
    pub date: Option<Date>,
    pub date_depot: Option<Date>,
    pub date_circulation: Option<Date>,
    pub date_examen: Option<Date>,
    pub date_sort: Option<Date>,
    pub dossier_ref: Option<String>,
    pub article: Option<String>,
    pub texte_ref: Option<String>,
    pub adopte: bool,
    pub mission_visee: Option<String>,
    pub mission_ref: Option<String>,
    pub expose_sommaire: Option<String>,
}

/// A legislative file.
#[derive(Debug, Clone)]
pub struct Dossier {
    pub id: String,
    pub titre: String,
    pub date_depot: Option<Date>,
    pub statut: Option<String>,
    pub legislature: Option<String>,
    pub nature: Option<String>,
    pub numero: Option<String>,
    pub auteur_id: Option<String>,
    pub cosignataires_ids: Vec<String>,
    pub source_url: Option<String>,
    /// `"assemblee"` or `"senat"`.
    pub origin_chamber: Option<String>,
    pub initiateur_organe_ref: Option<String>,
}

/// The activity of a representative on one legislative file.
#[derive(Debug, Clone)]
pub struct DossierScore {
    pub dossier_id: String,
    pub titre: String,
    pub votes: u32,
    pub amendements: u32,
    pub interventions: u32,
    pub score: u32,
}

#[derive(Debug, Clone)]
pub struct TopCosignataire {
    pub deputy_id: String,
    pub nom: String,
    pub prenom: String,
    pub groupe_abrev: Option<String>,
    pub co_signed_count: u32,
}

#[derive(Debug, Clone, Default)]
pub struct CosignPeer {
    pub deputy_id: String,
    pub nom: String,
    pub prenom: String,
    pub groupe_abrev: Option<String>,
    pub groupe_nom: Option<String>,
    pub count: u32,
}

#[derive(Debug, Clone, Default)]
pub struct CosignGroupBucket {
    pub groupe_abrev: Option<String>,
    pub groupe_nom: Option<String>,
    pub count_total: u32,
    pub members: Vec<CosignPeer>,
}

/// The co-signature partners of one representative over one period.
#[derive(Debug, Clone, Default)]
pub struct CosignNetworkStats {
    pub total_cosignatures: u32,
    pub unique_cosignataires: u32,
    pub in_group_count: u32,
    pub out_group_count: u32,
    pub in_group: Vec<CosignPeer>,
    pub out_group_groups: Vec<CosignGroupBucket>,
}

/// The figures of one representative over one period, with the identity
/// and the mandate of the representative as the registry gives them.
#[derive(Debug, Clone)]
pub struct DeputeStats {
    pub deputy_id: String,
    pub nom: String,
    pub prenom: String,
    pub groupe_abrev: Option<String>,
    pub groupe_nom: Option<String>,
    pub parti_rattachement: Option<String>,
    pub dept: Option<String>,
    pub circo: Option<String>,
    pub mandat_debut: Option<Date>,
    pub mandat_fin: Option<Date>,
    pub mandat_debut_legislature: Option<Date>,
    pub mandat_assemblee_episodes: Vec<MandatAssembleeEpisode>,
    pub date_naissance: Option<Date>,
    pub sexe: Option<String>,
    pub pays_naissance: Option<String>,
    pub profession: Option<String>,
    pub email_assemblee: Option<String>,
    pub site_web: Option<String>,
    pub sites_web: Vec<String>,
    pub sites_web_sources: Vec<SiteWebSource>,
    pub telephones: Vec<String>,
    pub uri_hatvp: Option<String>,
    pub period_start: Date,
    pub period_end: Date,
    pub scrutins_eligibles: u32,
    pub votes_exprimes: u32,
    pub non_votant: u32,
    pub absent: u32,
    pub pour_count: u32,
    pub contre_count: u32,
    pub abst_count: u32,
    pub amd_authored: u32,
    pub amd_adopted: u32,
    pub amd_cosigned: u32,
    pub interventions_count: u32,
    pub interventions_chars: u32,
    pub top_dossiers: Vec<DossierScore>,
    pub top_cosignataires: Vec<TopCosignataire>,
    pub cosign_network: Option<CosignNetworkStats>,
}

/// A quotient of two counts, kept exact.
#[derive(Debug, Clone, Copy, PartialEq, Eq, Structural)]
pub struct Ratio {
    pub numerator: u32,
    pub denominator: u32,
}

/// The identity and the mandate of a representative, as values.
pub struct Identity {
    pub id: Seq<char>,
    pub nom: Seq<char>,
    pub prenom: Seq<char>,
    pub groupe_abrev: Option<Seq<char>>,
    pub groupe_nom: Option<Seq<char>>,
    pub parti: Option<Seq<char>>,
    pub dept: Option<Seq<char>>,
    pub circo: Option<Seq<char>>,
    pub mandat_debut: Option<Date>,
    pub mandat_fin: Option<Date>,
    pub mandat_debut_legislature: Option<Date>,
    pub episodes: Seq<MandatAssembleeEpisode>,
    pub date_naissance: Option<Date>,
    pub sexe: Option<Seq<char>>,
    pub pays_naissance: Option<Seq<char>>,
    pub profession: Option<Seq<char>>,
    pub email_assemblee: Option<Seq<char>>,
    pub site_web: Option<Seq<char>>,
    pub sites_web: Seq<Seq<char>>,
    pub sites_web_sources: Seq<crate::parser::contact::SourceView>,
    pub telephones: Seq<Seq<char>>,
    pub uri_hatvp: Option<Seq<char>>,
}

impl Depute {
    /// What a record of figures repeats of the representative: the party
    /// by its name, the department by its name.
    pub open spec fn identity(self) -> Identity {
        Identity {
            id: self.id@,
            nom: self.nom@,
            prenom: self.prenom@,
            groupe_abrev: opt_text(self.groupe_abrev),
            groupe_nom: opt_text(self.groupe_nom),
            parti: opt_text(self.parti_nom),
            dept: opt_text(self.dept_nom),
            circo: opt_text(self.circo),
            mandat_debut: self.mandat_debut,
            mandat_fin: self.mandat_fin,
            mandat_debut_legislature: self.mandat_debut_legislature,
            episodes: self.mandat_assemblee_episodes@,
            date_naissance: self.date_naissance,
            sexe: opt_text(self.sexe),
            pays_naissance: opt_text(self.pays_naissance),
            profession: opt_text(self.profession),
            email_assemblee: opt_text(self.email_assemblee),
            site_web: opt_text(self.site_web),
            sites_web: texts(self.sites_web@),
            sites_web_sources: source_views(self.sites_web_sources@),
            telephones: texts(self.telephones@),
            uri_hatvp: opt_text(self.uri_hatvp),
        }
    }
}

/// A copy of a list of strings.
pub fn clone_texts(v: &Vec<String>) -> (r: Vec<String>)
    ensures
        texts(r@) == texts(v@),
{
    let mut r: Vec<String> = Vec::new();
    let mut i: usize = 0;
    while i < v.len()
        invariant
            i <= v@.len(),
            r@.len() == i,
            forall|k: int| 0 <= k < i ==> (#[trigger] r@[k])@ == v@[k]@,
        decreases v@.len() - i,
    {
        r.push(v[i].clone());
        i += 1;
    }
    assert(texts(r@) =~= texts(v@));
    r
}

/// A copy of a list of web addresses.
pub fn clone_sources(v: &Vec<SiteWebSource>) -> (r: Vec<SiteWebSource>)
    ensures
        source_views(r@) == source_views(v@),
{
    let mut r: Vec<SiteWebSource> = Vec::new();
    let mut i: usize = 0;
    while i < v.len()
        invariant
            i <= v@.len(),
            r@.len() == i,
            forall|k: int|
                0 <= k < i ==> crate::parser::contact::source_view(#[trigger] r@[k])
                    == crate::parser::contact::source_view(v@[k]),
        decreases v@.len() - i,
    {
        r.push(
            SiteWebSource {
                type_libelle: clone_opt(&v[i].type_libelle),
                val_elec: v[i].val_elec.clone(),
                url: clone_opt(&v[i].url),
            },
        );
        i += 1;
    }
    assert(source_views(r@) =~= source_views(v@));
    r
}

/// A copy of a list of episodes.
pub fn clone_episodes(v: &Vec<MandatAssembleeEpisode>) -> (r: Vec<MandatAssembleeEpisode>)
    ensures
        r@ == v@,
{
    let mut r: Vec<MandatAssembleeEpisode> = Vec::new();
    let mut i: usize = 0;
    while i < v.len()
        invariant
            i <= v@.len(),
            r@ == v@.take(i as int),
        decreases v@.len() - i,
    {
        r.push(v[i]);
        assert(v@.take(i + 1) == v@.take(i as int).push(v@[i as int]));
        i += 1;
    }
    assert(v@.take(v@.len() as int) == v@);
    r
}

impl DeputeStats {
    /// The identity and the mandate that the record carries.
    pub open spec fn identity(self) -> Identity {
        Identity {
            id: self.deputy_id@,
            nom: self.nom@,
            prenom: self.prenom@,
            groupe_abrev: opt_text(self.groupe_abrev),
            groupe_nom: opt_text(self.groupe_nom),
            parti: opt_text(self.parti_rattachement),
            dept: opt_text(self.dept),
            circo: opt_text(self.circo),
            mandat_debut: self.mandat_debut,
            mandat_fin: self.mandat_fin,
            mandat_debut_legislature: self.mandat_debut_legislature,
            episodes: self.mandat_assemblee_episodes@,
            date_naissance: self.date_naissance,
            sexe: opt_text(self.sexe),
            pays_naissance: opt_text(self.pays_naissance),
            profession: opt_text(self.profession),
            email_assemblee: opt_text(self.email_assemblee),
            site_web: opt_text(self.site_web),
            sites_web: texts(self.sites_web@),
            sites_web_sources: source_views(self.sites_web_sources@),
            telephones: texts(self.telephones@),
            uri_hatvp: opt_text(self.uri_hatvp),
        }
    }

    /// The share of eligible roll calls in which a vote was cast; zero over
    /// one where no roll call was eligible.
    pub fn participation(&self) -> (r: Ratio)
        ensures
            r == (if self.scrutins_eligibles > 0 {
                (Ratio { numerator: self.votes_exprimes, denominator: self.scrutins_eligibles })
            } else {
                (Ratio { numerator: 0, denominator: 1 })
            }),
    {
        if self.scrutins_eligibles > 0 {
            Ratio { numerator: self.votes_exprimes, denominator: self.scrutins_eligibles }
        } else {
            Ratio { numerator: 0, denominator: 1 }
        }
    }

    /// The share of authored amendments that were adopted; absent exactly
    /// when none was authored.
    pub fn amd_adoption(&self) -> (r: Option<Ratio>)
        ensures
            r is None <==> self.amd_authored == 0,
            r matches Some(q) ==> q.numerator == self.amd_adopted && q.denominator
                == self.amd_authored,
    {
        if self.amd_authored > 0 {
            Some(Ratio { numerator: self.amd_adopted, denominator: self.amd_authored })
        } else {
            None
        }
    }
}

/// Everything the parser hands to the aggregation.
#[derive(Debug, Clone)]
pub struct RawDataset {
    pub deputes: Vec<Depute>,
    pub organes: Vec<Organe>,
    pub scrutins: Vec<Scrutin>,
    pub amendements: Vec<Amendement>,
    pub dossiers: Vec<Dossier>,
}


/// Everything a record of the registry says of a representative, as
/// values.
pub struct DeputeRecord {
    pub identity: Identity,
    pub dept_code: Option<Seq<char>>,
    pub groupe_id: Option<Seq<char>>,
    pub parti_id: Option<Seq<char>>,
}

impl Depute {
    pub open spec fn record(self) -> DeputeRecord {
        DeputeRecord {
            identity: self.identity(),
            dept_code: opt_text(self.dept_code),
            groupe_id: opt_text(self.groupe_id),
            parti_id: opt_text(self.parti_id),
        }
    }
}

pub open spec fn depute_records(list: Seq<Depute>) -> Seq<DeputeRecord> {
    Seq::new(list.len(), |i: int| list[i].record())
}

/// A copy of a representative.
pub fn clone_depute(d: &Depute) -> (r: Depute)
    ensures
        r.record() == d.record(),
{
    Depute {
        id: d.id.clone(),
        nom: d.nom.clone(),
        prenom: d.prenom.clone(),
        date_naissance: d.date_naissance,
        sexe: clone_opt(&d.sexe),
        pays_naissance: clone_opt(&d.pays_naissance),
        profession: clone_opt(&d.profession),
        dept_code: clone_opt(&d.dept_code),
        dept_nom: clone_opt(&d.dept_nom),
        circo: clone_opt(&d.circo),
        mandat_debut: d.mandat_debut,
        mandat_fin: d.mandat_fin,
        mandat_debut_legislature: d.mandat_debut_legislature,
        mandat_assemblee_episodes: clone_episodes(&d.mandat_assemblee_episodes),
        groupe_id: clone_opt(&d.groupe_id),
        groupe_abrev: clone_opt(&d.groupe_abrev),
        groupe_nom: clone_opt(&d.groupe_nom),
        parti_id: clone_opt(&d.parti_id),
        parti_nom: clone_opt(&d.parti_nom),
        email_assemblee: clone_opt(&d.email_assemblee),
        site_web: clone_opt(&d.site_web),
        sites_web: clone_texts(&d.sites_web),
        sites_web_sources: clone_sources(&d.sites_web_sources),
        telephones: clone_texts(&d.telephones),
        uri_hatvp: clone_opt(&d.uri_hatvp),
    }
}

/// A copy of the registry.
pub fn clone_deputes(v: &Vec<Depute>) -> (r: Vec<Depute>)
    ensures
        depute_records(r@) == depute_records(v@),
{
    let mut r: Vec<Depute> = Vec::new();
    let mut i: usize = 0;
    while i < v.len()
        invariant
            i <= v@.len(),
            r@.len() == i,
            forall|k: int| 0 <= k < i ==> (#[trigger] r@[k]).record() == v@[k].record(),
        decreases v@.len() - i,
    {
        r.push(clone_depute(&v[i]));
        i += 1;
    }
    assert(depute_records(r@) =~= depute_records(v@));
    r
}

/// Everything a record says of a legislative file, as values.
pub struct DossierRecord {
    pub id: Seq<char>,
    pub titre: Seq<char>,
    pub date_depot: Option<Date>,
    pub statut: Option<Seq<char>>,
    pub legislature: Option<Seq<char>>,
    pub nature: Option<Seq<char>>,
    pub numero: Option<Seq<char>>,
    pub auteur_id: Option<Seq<char>>,
    pub cosignataires_ids: Seq<Seq<char>>,
    pub source_url: Option<Seq<char>>,
    pub origin_chamber: Option<Seq<char>>,
    pub initiateur_organe_ref: Option<Seq<char>>,
}

impl Dossier {
    pub open spec fn record(self) -> DossierRecord {
        DossierRecord {
            id: self.id@,
            titre: self.titre@,
            date_depot: self.date_depot,
            statut: opt_text(self.statut),
            legislature: opt_text(self.legislature),
            nature: opt_text(self.nature),
            numero: opt_text(self.numero),
            auteur_id: opt_text(self.auteur_id),
            cosignataires_ids: texts(self.cosignataires_ids@),
            source_url: opt_text(self.source_url),
            origin_chamber: opt_text(self.origin_chamber),
            initiateur_organe_ref: opt_text(self.initiateur_organe_ref),
        }
    }
}

pub open spec fn dossier_records(list: Seq<Dossier>) -> Seq<DossierRecord> {
    Seq::new(list.len(), |i: int| list[i].record())
}

/// A copy of a legislative file.
pub fn clone_dossier(d: &Dossier) -> (r: Dossier)
    ensures
        r.record() == d.record(),
{
    Dossier {
        id: d.id.clone(),
        titre: d.titre.clone(),
        date_depot: d.date_depot,
        statut: clone_opt(&d.statut),
        legislature: clone_opt(&d.legislature),
        nature: clone_opt(&d.nature),
        numero: clone_opt(&d.numero),
        auteur_id: clone_opt(&d.auteur_id),
        cosignataires_ids: clone_texts(&d.cosignataires_ids),
        source_url: clone_opt(&d.source_url),
        origin_chamber: clone_opt(&d.origin_chamber),
        initiateur_organe_ref: clone_opt(&d.initiateur_organe_ref),
    }
}

/// A copy of the legislative files.
pub fn clone_dossiers(v: &Vec<Dossier>) -> (r: Vec<Dossier>)
    ensures
        dossier_records(r@) == dossier_records(v@),
{
    let mut r: Vec<Dossier> = Vec::new();
    let mut i: usize = 0;
    while i < v.len()
        invariant
            i <= v@.len(),
            r@.len() == i,
            forall|k: int| 0 <= k < i ==> (#[trigger] r@[k]).record() == v@[k].record(),
        decreases v@.len() - i,
    {
        r.push(clone_dossier(&v[i]));
        i += 1;
    }
    assert(dossier_records(r@) =~= dossier_records(v@));
    r
}

} // verus!
