//! Linkage of member bills to political groups and to representatives.

use vstd::prelude::*;
use crate::models::{Depute, Dossier};
use crate::numbers::{chars_parse_unsigned, parse_unsigned};
use crate::site::{chars_file_stem, file_stem};
use crate::text::{
    append_chars, ascii_upper_seq, chars_ascii_upper, chars_collapse_whitespace, chars_of,
    chars_starts_with, chars_trim, collapse_whitespace, lowercase_of, opt_text, starts_with,
    str_to_lowercase, text_of, trim,
};

verus! {

/// The index of the group shards.
#[derive(Debug, Clone)]
pub struct GroupPplIndex {
    pub version: u8,
    pub generated_at: String,
    pub total_groups: usize,
    pub total_ppl_links: usize,
    pub total_unique_ppl: usize,
    pub groups: Vec<GroupPplGroupIndexEntry>,
}

#[derive(Debug, Clone)]
pub struct GroupPplGroupIndexEntry {
    pub group_id: String,
    pub group_label: String,
    pub ppl_count: usize,
    pub authored_ppl_count: usize,
    pub cosigned_only_ppl_count: usize,
    pub file: String,
}

/// The bills that members of one group signed.
#[derive(Debug, Clone)]
pub struct GroupPplGroupShard {
    pub version: u8,
    pub generated_at: String,
    pub group_id: String,
    pub group_label: String,
    pub total_entries: usize,
    pub items: Vec<GroupPplItemSummary>,
}

/// One bill as seen from one group.
#[derive(Debug, Clone)]
pub struct GroupPplItemSummary {
    pub ppl_id: String,
    pub number: Option<String>,
    pub legislature: Option<u8>,
    pub title: String,
    pub deposit_date: Option<String>,
    pub source_url: Option<String>,
    pub author_count: u16,
    pub cosigner_count: u16,
    pub total_signers_from_group: u16,
    pub has_author: bool,
    pub signer_names_preview: Vec<String>,
    pub signers_preview: Vec<SignerPreviewEntry>,
}

#[derive(Debug, Clone)]
pub struct SignerPreviewEntry {
    pub deputy_id: Option<String>,
    pub deputy_name: String,
}

/// The bills that one representative signed.
#[derive(Debug, Clone)]
pub struct DeputyPplShard {
    pub version: u8,
    pub generated_at: String,
    pub deputy_id: String,
    pub deputy_name: String,
    pub group_id: Option<String>,
    pub group_label: Option<String>,
    pub total_entries: usize,
    pub authored_count: usize,
    pub cosigned_only_count: usize,
    pub items: Vec<DeputyPplItemSummary>,
}

#[derive(Debug, Clone)]
pub struct DeputyPplItemSummary {
    pub ppl_id: String,
    pub number: Option<String>,
    pub legislature: Option<u8>,
    pub title: String,
    pub deposit_date: Option<String>,
    pub source_url: Option<String>,
    pub is_author: bool,
    pub is_cosigner: bool,
}

pub fn normalize_whitespace(s: &str) -> (r: String)
    ensures
        r@ == collapse_whitespace(s@),
{
    text_of(&chars_collapse_whitespace(&chars_of(s)))
}

/// The form in which actor ids are compared: trimmed, ASCII letters in
/// upper case.
pub open spec fn actor_id(raw: Seq<char>) -> Seq<char> {
    ascii_upper_seq(trim(raw))
}

pub fn normalize_actor_id(raw: &str) -> (r: String)
    ensures
        r@ == actor_id(raw@),
{
    text_of(&chars_ascii_upper(&chars_trim(&chars_of(raw))))
}

/// The key under which a signer counts within a bill.
pub fn signer_key(dep_id: &str) -> (r: String)
    ensures
        r@ == "id:"@ + actor_id(dep_id@),
{
    let mut out = chars_of("id:");
    append_chars(&mut out, &chars_ascii_upper(&chars_trim(&chars_of(dep_id))));
    text_of(&out)
}

pub fn saturating_u16(v: usize) -> (r: u16)
    ensures
        r == if v > u16::MAX {
            u16::MAX as int
        } else {
            v as int
        },
{
    if v > u16::MAX as usize {
        u16::MAX
    } else {
        v as u16
    }
}

/// The stem of the file of a shard: the file stem of the id, and `group`
/// where that is empty.
pub open spec fn shard_stem(s: Seq<char>) -> Seq<char> {
    if file_stem(s).len() == 0 {
        "group"@
    } else {
        file_stem(s)
    }
}

pub fn safe_file_stem(s: &str) -> (r: String)
    ensures
        r@ == shard_stem(s@),
{
    let stem = chars_file_stem(&chars_of(s));
    if stem.len() == 0 {
        "group".to_string()
    } else {
        text_of(&stem)
    }
}

/// A label of the family "proposition de loi"; resolutions are no part of
/// it.
pub open spec fn ppl_label(raw: Seq<char>) -> bool {
    names_member_bill(lowercase_of(trim(raw)))
}

/// A label in lower case begins as a member bill does, and not as a
/// resolution.
pub open spec fn names_member_bill(lower: Seq<char>) -> bool {
    starts_with(lower, "proposition de loi"@) && !starts_with(
        lower,
        "proposition de r\u{e9}solution"@,
    )
}

pub fn is_ppl_label(raw: &str) -> (r: bool)
    ensures
        r == ppl_label(raw@),
{
    let t = text_of(&chars_trim(&chars_of(raw)));
    is_member_bill_label(str_to_lowercase(t.as_str()).as_str())
}

/// Whether a label, given trimmed and in lower case, is of the family
/// "proposition de loi".
pub fn is_member_bill_label(lower: &str) -> (r: bool)
    ensures
        r == names_member_bill(lower@),
{
    let s = chars_of(lower);
    chars_starts_with(&s, &chars_of("proposition de loi")) && !chars_starts_with(
        &s,
        &chars_of("proposition de r\u{e9}solution"),
    )
}

/// A legislative file is a member bill when its status, its nature or its
/// title says so.
pub open spec fn proposition_de_loi(d: Dossier) -> bool {
    (d.statut matches Some(s) && ppl_label(s@)) || (d.nature matches Some(n) && ppl_label(n@))
        || ppl_label(d.titre@)
}

pub fn is_proposition_de_loi(d: &Dossier) -> (r: bool)
    ensures
        r == proposition_de_loi(*d),
{
    match &d.statut {
        Some(s) => {
            if is_ppl_label(s.as_str()) {
                return true;
            }
        },
        None => {},
    }
    match &d.nature {
        Some(n) => {
            if is_ppl_label(n.as_str()) {
                return true;
            }
        },
        None => {},
    }
    is_ppl_label(d.titre.as_str())
}

pub open spec fn with_author() -> spec_fn(GroupPplItemSummary) -> bool {
    |item: GroupPplItemSummary| item.has_author
}

/// How many of the items have an author from the group, and how many were
/// only co-signed.
pub fn count_authored_vs_cosigned_only(items: &Vec<GroupPplItemSummary>) -> (r: (usize, usize))
    ensures
        r.0 == crate::counting::count_if(items@, with_author()),
        r.0 + r.1 == items@.len(),
{
    let mut authored: usize = 0;
    let mut cosigned_only: usize = 0;
    let mut i: usize = 0;
    while i < items.len()
        invariant
            i <= items@.len(),
            authored == crate::counting::count_if(items@.take(i as int), with_author()),
            authored + cosigned_only == i,
        decreases items@.len() - i,
    {
        proof {
            crate::counting::lemma_count_step(items@, i as int, with_author());
        }
        if items[i].has_author {
            authored += 1;
        } else {
            cosigned_only += 1;
        }
        i += 1;
    }
    assert(items@.take(items@.len() as int) == items@);
    (authored, cosigned_only)
}

/// The legislature of a file as a number, where its text is one.
pub open spec fn legislature_number(d: Dossier) -> Option<u8> {
    match d.legislature {
        Some(s) => match parse_unsigned(trim(s@), 10, 255) {
            Some(n) => Some(n as u8),
            None => None,
        },
        None => None,
    }
}

pub fn legislature_of(d: &Dossier) -> (r: Option<u8>)
    ensures
        r == legislature_number(*d),
{
    match &d.legislature {
        Some(s) => match chars_parse_unsigned(&chars_trim(&chars_of(s.as_str())), 10, 255) {
            Some(n) => Some(n as u8),
            None => None,
        },
        None => None,
    }
}

/// What a signer id is looked up against: a representative answers to
/// their id as it stands and to its normalised form.
pub open spec fn answers_to(d: Depute, key: Seq<char>) -> bool {
    d.id@ == key || actor_id(d.id@) == key
}

/// The first representative that answers to the key.
pub open spec fn first_answering(deputes: Seq<Depute>, key: Seq<char>) -> Option<int>
    decreases deputes.len(),
{
    if deputes.len() == 0 {
        None
    } else if answers_to(deputes[0], key) {
        Some(0int)
    } else {
        match first_answering(deputes.skip(1), key) {
            Some(i) => Some(i + 1),
            None => None,
        }
    }
}

/// The representative that a signer id resolves to: looked up as it stands,
/// then in its normalised form.
pub open spec fn resolve(deputes: Seq<Depute>, signer: Seq<char>) -> Option<int> {
    match first_answering(deputes, signer) {
        Some(i) => Some(i),
        None => first_answering(deputes, actor_id(signer)),
    }
}

/// The representative declares a group in some form.
pub open spec fn has_group(d: Depute) -> bool {
    d.groupe_id is Some || d.groupe_abrev is Some || d.groupe_nom is Some
}

/// The id of the group of a representative: the group's id, else its
/// abbreviation, else the id of the unknown bucket.
pub open spec fn group_id_of(d: Depute) -> Seq<char> {
    match (d.groupe_id, d.groupe_abrev) {
        (Some(id), _) => id@,
        (None, Some(a)) => a@,
        (None, None) => "UNKNOWN"@,
    }
}

/// The label of the group of a representative: its abbreviation, else its
/// name.
pub open spec fn group_label_of(d: Depute) -> Seq<char> {
    match (d.groupe_abrev, d.groupe_nom) {
        (Some(a), _) => a@,
        (None, Some(n)) => n@,
        (None, None) => "Inconnu"@,
    }
}

/// First name and name.
pub open spec fn full_name_of(d: Depute) -> Seq<char> {
    trim(d.prenom@ + " "@ + d.nom@)
}

/// The group that a signer counts for: that of the representative they
/// resolve to, and the unknown bucket where they resolve to none or to one
/// without a group.
pub open spec fn signer_group(deputes: Seq<Depute>, signer: Seq<char>) -> (Seq<char>, Seq<char>) {
    match resolve(deputes, signer) {
        Some(i) => if has_group(deputes[i]) {
            (group_id_of(deputes[i]), group_label_of(deputes[i]))
        } else {
            ("UNKNOWN"@, "Inconnu"@)
        },
        None => ("UNKNOWN"@, "Inconnu"@),
    }
}

/// Why a signer resolves to no group.
#[derive(Debug, Clone, Copy, PartialEq, Eq, Structural)]
pub enum Resolution {
    Group,
    DeputyWithoutGroup,
    DeputyNotFound,
}

pub open spec fn resolution_of(deputes: Seq<Depute>, signer: Seq<char>) -> Resolution {
    match resolve(deputes, signer) {
        Some(i) => if has_group(deputes[i]) {
            Resolution::Group
        } else {
            Resolution::DeputyWithoutGroup
        },
        None => Resolution::DeputyNotFound,
    }
}

/// A signer of a bill with what it resolves to.
#[derive(Debug, Clone)]
pub struct ResolvedSigner {
    /// The id as the signer is looked up.
    pub signer_id: String,
    /// The position of the representative among the representatives.
    pub deputy: Option<usize>,
    pub group_id: String,
    pub group_label: String,
    pub resolution: Resolution,
}

impl ResolvedSigner {
    /// The signer is the signer with the given id, resolved against the
    /// representatives.
    pub open spec fn is_signer(self, deputes: Seq<Depute>, signer: Seq<char>) -> bool {
        &&& self.signer_id@ == signer
        &&& match self.deputy {
            Some(i) => resolve(deputes, signer) == Some(i as int) && i < deputes.len(),
            None => resolve(deputes, signer).is_none(),
        }
        &&& (self.group_id@, self.group_label@) == signer_group(deputes, signer)
        &&& self.resolution == resolution_of(deputes, signer)
    }
}

/// The normalised ids of the representatives.
pub fn normalized_ids(deputes: &Vec<Depute>) -> (r: Vec<String>)
    ensures
        r@.len() == deputes@.len(),
        forall|i: int| 0 <= i < r@.len() ==> (#[trigger] r@[i])@ == actor_id(deputes@[i].id@),
{
    let mut r: Vec<String> = Vec::new();
    let mut i: usize = 0;
    while i < deputes.len()
        invariant
            i <= deputes@.len(),
            r@.len() == i,
            forall|k: int| 0 <= k < i ==> (#[trigger] r@[k])@ == actor_id(deputes@[k].id@),
        decreases deputes@.len() - i,
    {
        r.push(normalize_actor_id(deputes[i].id.as_str()));
        i += 1;
    }
    r
}

fn find_answering(deputes: &Vec<Depute>, normalized: &Vec<String>, key: &String) -> (r: Option<
    usize,
>)
    requires
        normalized@.len() == deputes@.len(),
        forall|i: int|
            0 <= i < normalized@.len() ==> (#[trigger] normalized@[i])@ == actor_id(
                deputes@[i].id@,
            ),
    ensures
        match r {
            Some(i) => first_answering(deputes@, key@) == Some(i as int) && i < deputes@.len(),
            None => first_answering(deputes@, key@).is_none(),
        },
{
    let mut i: usize = 0;
    assert(deputes@.skip(0) == deputes@);
    while i < deputes.len()
        invariant
            i <= deputes@.len(),
            normalized@.len() == deputes@.len(),
            forall|k: int|
                0 <= k < normalized@.len() ==> (#[trigger] normalized@[k])@ == actor_id(
                    deputes@[k].id@,
                ),
            first_answering(deputes@, key@) == match first_answering(
                deputes@.skip(i as int),
                key@,
            ) {
                Some(k) => Some(k + i),
                None => None,
            },
        decreases deputes@.len() - i,
    {
        assert(deputes@.skip(i as int)[0] == deputes@[i as int]);
        if deputes[i].id == *key || normalized[i] == *key {
            return Some(i);
        }
        assert(deputes@.skip(i as int).skip(1) == deputes@.skip(i + 1));
        i += 1;
    }
    None
}

/// The representative that a signer id resolves to.
pub fn lookup_deputy(deputes: &Vec<Depute>, normalized: &Vec<String>, signer_id: &String) -> (r:
    Option<usize>)
    requires
        normalized@.len() == deputes@.len(),
        forall|i: int|
            0 <= i < normalized@.len() ==> (#[trigger] normalized@[i])@ == actor_id(
                deputes@[i].id@,
            ),
    ensures
        match r {
            Some(i) => resolve(deputes@, signer_id@) == Some(i as int) && i < deputes@.len(),
            None => resolve(deputes@, signer_id@).is_none(),
        },
{
    match find_answering(deputes, normalized, signer_id) {
        Some(i) => Some(i),
        None => {
            let key = normalize_actor_id(signer_id.as_str());
            find_answering(deputes, normalized, &key)
        },
    }
}

fn group_id_text(d: &Depute) -> (r: String)
    ensures
        r@ == group_id_of(*d),
{
    match (&d.groupe_id, &d.groupe_abrev) {
        (Some(id), _) => id.clone(),
        (None, Some(a)) => a.clone(),
        (None, None) => "UNKNOWN".to_string(),
    }
}

fn group_label_text(d: &Depute) -> (r: String)
    ensures
        r@ == group_label_of(*d),
{
    match (&d.groupe_abrev, &d.groupe_nom) {
        (Some(a), _) => a.clone(),
        (None, Some(n)) => n.clone(),
        (None, None) => "Inconnu".to_string(),
    }
}

fn declares_group(d: &Depute) -> (r: bool)
    ensures
        r == has_group(*d),
{
    d.groupe_id.is_some() || d.groupe_abrev.is_some() || d.groupe_nom.is_some()
}

/// First name and name of a representative.
pub fn full_name(d: &Depute) -> (r: String)
    ensures
        r@ == full_name_of(*d),
{
    let mut out = chars_of(d.prenom.as_str());
    append_chars(&mut out, &chars_of(" "));
    append_chars(&mut out, &chars_of(d.nom.as_str()));
    text_of(&chars_trim(&out))
}

/// Resolves a signer id against the representatives.
pub fn resolve_signer(deputes: &Vec<Depute>, normalized: &Vec<String>, signer_id: String) -> (r:
    ResolvedSigner)
    requires
        normalized@.len() == deputes@.len(),
        forall|i: int|
            0 <= i < normalized@.len() ==> (#[trigger] normalized@[i])@ == actor_id(
                deputes@[i].id@,
            ),
    ensures
        r.is_signer(deputes@, signer_id@),
{
    let deputy = lookup_deputy(deputes, normalized, &signer_id);
    match deputy {
        Some(i) => {
            if declares_group(&deputes[i]) {
                ResolvedSigner {
                    signer_id,
                    deputy,
                    group_id: group_id_text(&deputes[i]),
                    group_label: group_label_text(&deputes[i]),
                    resolution: Resolution::Group,
                }
            } else {
                ResolvedSigner {
                    signer_id,
                    deputy,
                    group_id: "UNKNOWN".to_string(),
                    group_label: "Inconnu".to_string(),
                    resolution: Resolution::DeputyWithoutGroup,
                }
            }
        },
        None => ResolvedSigner {
            signer_id,
            deputy,
            group_id: "UNKNOWN".to_string(),
            group_label: "Inconnu".to_string(),
            resolution: Resolution::DeputyNotFound,
        },
    }
}

/// The bill comes from the senate.
pub open spec fn from_senate(d: Dossier) -> bool {
    d.origin_chamber matches Some(o) && o@ == "senat"@
}

pub open spec fn from_assembly(d: Dossier) -> bool {
    d.origin_chamber matches Some(o) && o@ == "assemblee"@
}

/// The bills that the linkage keeps: member bills that do not come from
/// the senate and name an author or a co-signer.
pub open spec fn retained(d: Dossier) -> bool {
    proposition_de_loi(d) && !from_senate(d) && (d.auteur_id is Some || d.cosignataires_ids@.len()
        > 0)
}

/// Some id of the list has the given normalised form.
pub open spec fn among_normalized(ids: Seq<String>, key: Seq<char>) -> bool {
    exists|j: int| 0 <= j < ids.len() && actor_id((#[trigger] ids[j])@) == key
}

/// The co-signers of a bill as they count: their ids normalised, each
/// once, the author left out.
pub open spec fn cosigner_keys(author: Option<Seq<char>>, ids: Seq<String>) -> Seq<Seq<char>>
    decreases ids.len(),
{
    if ids.len() == 0 {
        Seq::empty()
    } else {
        let head = cosigner_keys(author, ids.drop_last());
        let key = actor_id(ids.last()@);
        let is_author = author matches Some(a) && actor_id(a) == key;
        if is_author || among_normalized(ids.drop_last(), key) {
            head
        } else {
            head.push(key)
        }
    }
}

/// A retained bill with its signers resolved.
#[derive(Debug, Clone)]
pub struct ResolvedDossier {
    /// The position of the bill among the legislative files.
    pub index: usize,
    pub author: Option<ResolvedSigner>,
    pub cosigners: Vec<ResolvedSigner>,
}

impl ResolvedDossier {
    /// The entry is that of the bill at its position, with the author and
    /// the co-signers of the bill resolved.
    pub open spec fn is_resolution_of(self, deputes: Seq<Depute>, dossiers: Seq<Dossier>) -> bool {
        &&& self.index < dossiers.len()
        &&& retained(dossiers[self.index as int])
        &&& match (self.author, dossiers[self.index as int].auteur_id) {
            (Some(a), Some(id)) => a.is_signer(deputes, id@),
            (None, None) => true,
            _ => false,
        }
        &&& {
            let keys = cosigner_keys(
                opt_text(dossiers[self.index as int].auteur_id),
                dossiers[self.index as int].cosignataires_ids@,
            );
            &&& self.cosigners@.len() == keys.len()
            &&& forall|k: int|
                0 <= k < keys.len() ==> (#[trigger] self.cosigners@[k]).is_signer(deputes, keys[k])
        }
    }
}

proof fn lemma_among_normalized_step(ids: Seq<String>, i: int, key: Seq<char>)
    requires
        0 <= i < ids.len(),
    ensures
        among_normalized(ids.take(i + 1), key) <==> among_normalized(ids.take(i), key) || actor_id(
            ids[i]@,
        ) == key,
{
    let head = ids.take(i);
    let more = ids.take(i + 1);
    if among_normalized(head, key) {
        let x = choose|x: int| 0 <= x < head.len() && actor_id((#[trigger] head[x])@) == key;
        assert(more[x] == head[x]);
    }
    if actor_id(ids[i]@) == key {
        assert(more[i] == ids[i]);
    }
    if among_normalized(more, key) {
        let x = choose|x: int| 0 <= x < more.len() && actor_id((#[trigger] more[x])@) == key;
        if x < i {
            assert(head[x] == more[x]);
        }
    }
}

/// Resolves the signers of a retained bill.
pub(crate) fn resolve_dossier(
    index: usize,
    deputes: &Vec<Depute>,
    normalized: &Vec<String>,
    dossiers: &Vec<Dossier>,
) -> (r: ResolvedDossier)
    requires
        index < dossiers@.len(),
        retained(dossiers@[index as int]),
        normalized@.len() == deputes@.len(),
        forall|i: int|
            0 <= i < normalized@.len() ==> (#[trigger] normalized@[i])@ == actor_id(
                deputes@[i].id@,
            ),
    ensures
        r.index == index,
        r.is_resolution_of(deputes@, dossiers@),
{
    let d = &dossiers[index];
    let author = match &d.auteur_id {
        Some(id) => Some(resolve_signer(deputes, normalized, id.clone())),
        None => None,
    };
    let author_key: Option<String> = match &d.auteur_id {
        Some(id) => Some(normalize_actor_id(id.as_str())),
        None => None,
    };
    let ghost ids = d.cosignataires_ids@;
    let ghost author_text = opt_text(d.auteur_id);
    let mut cosigners: Vec<ResolvedSigner> = Vec::new();
    let mut seen: Vec<String> = Vec::new();
    let mut i: usize = 0;
    while i < d.cosignataires_ids.len()
        invariant
            i <= ids.len(),
            ids == d.cosignataires_ids@,
            author_text == opt_text(d.auteur_id),
            match (author_key, author_text) {
                (Some(k), Some(a)) => k@ == actor_id(a),
                (None, None) => true,
                _ => false,
            },
            normalized@.len() == deputes@.len(),
            forall|k: int|
                0 <= k < normalized@.len() ==> (#[trigger] normalized@[k])@ == actor_id(
                    deputes@[k].id@,
                ),
            cosigners@.len() == cosigner_keys(author_text, ids.take(i as int)).len(),
            forall|k: int|
                0 <= k < cosigners@.len() ==> (#[trigger] cosigners@[k]).is_signer(
                    deputes@,
                    cosigner_keys(author_text, ids.take(i as int))[k],
                ),
            forall|key: Seq<char>|
                #[trigger] crate::parser::holds_text(seen@, key) <==> among_normalized(
                    ids.take(i as int),
                    key,
                ),
        decreases ids.len() - i,
    {
        let key = normalize_actor_id(d.cosignataires_ids[i].as_str());
        let ghost seen_before = seen@;
        let ghost head = cosigner_keys(author_text, ids.take(i as int));
        proof {
            assert(ids.take(i + 1).drop_last() == ids.take(i as int));
            assert(ids.take(i + 1).last() == ids[i as int]);
            assert forall|k: Seq<char>|
                among_normalized(ids.take(i + 1), k) <==> among_normalized(ids.take(i as int), k)
                    || actor_id(ids[i as int]@) == k by {
                lemma_among_normalized_step(ids, i as int, k);
            }
        }
        let repeated = crate::parser::list_holds(&seen, &key);
        let is_author = match &author_key {
            Some(k) => *k == key,
            None => false,
        };
        if !repeated {
            seen.push(key.clone());
            proof {
                assert forall|k: Seq<char>| #[trigger]
                    crate::parser::holds_text(seen@, k) <==> among_normalized(
                        ids.take(i + 1),
                        k,
                    ) by {
                    crate::parser::lemma_holds_text_push(seen_before, key, k);
                }
            }
        }
        if !repeated && !is_author {
            let ghost before = cosigners@;
            cosigners.push(resolve_signer(deputes, normalized, key));
            proof {
                let keys = cosigner_keys(author_text, ids.take(i + 1));
                assert(keys == head.push(actor_id(ids[i as int]@)));
                assert forall|k: int| 0 <= k < cosigners@.len() implies (
                #[trigger] cosigners@[k]).is_signer(deputes@, keys[k]) by {
                    if k < before.len() {
                        assert(cosigners@[k] == before[k]);
                    }
                }
            }
        }
        i += 1;
    }
    assert(ids.take(ids.len() as int) == ids);
    ResolvedDossier { index, author, cosigners }
}

/// The retained bills of the files, each with its signers resolved, in the
/// order of the files.
pub open spec fn is_resolution(
    resolved: Seq<ResolvedDossier>,
    deputes: Seq<Depute>,
    dossiers: Seq<Dossier>,
    upto: int,
) -> bool {
    &&& forall|p: int|
        0 <= p < resolved.len() ==> (#[trigger] resolved[p]).is_resolution_of(deputes, dossiers)
            && resolved[p].index < upto
    &&& forall|p: int, q: int|
        0 <= p < q < resolved.len() ==> (#[trigger] resolved[p]).index < (
        #[trigger] resolved[q]).index
    &&& forall|i: int|
        0 <= i < upto && i < dossiers.len() && retained(#[trigger] dossiers[i]) ==> exists|p: int|
            0 <= p < resolved.len() && (#[trigger] resolved[p]).index == i
}

pub fn is_from_senate(d: &Dossier) -> (r: bool)
    ensures
        r == from_senate(*d),
{
    match &d.origin_chamber {
        Some(o) => crate::text::str_eq(o.as_str(), "senat"),
        None => false,
    }
}

pub fn is_from_assembly(d: &Dossier) -> (r: bool)
    ensures
        r == from_assembly(*d),
{
    match &d.origin_chamber {
        Some(o) => crate::text::str_eq(o.as_str(), "assemblee"),
        None => false,
    }
}

pub fn is_retained(d: &Dossier) -> (r: bool)
    ensures
        r == retained(*d),
{
    is_proposition_de_loi(d) && !is_from_senate(d) && (d.auteur_id.is_some()
        || d.cosignataires_ids.len() > 0)
}

/// Resolves the signers of every retained bill.
pub(crate) fn resolve_all(deputes: &Vec<Depute>, dossiers: &Vec<Dossier>) -> (resolved: Vec<
    ResolvedDossier,
>)
    ensures
        is_resolution(resolved@, deputes@, dossiers@, dossiers@.len() as int),
{
    let normalized = normalized_ids(deputes);
    let mut resolved: Vec<ResolvedDossier> = Vec::new();
    let mut i: usize = 0;
    while i < dossiers.len()
        invariant
            i <= dossiers@.len(),
            normalized@.len() == deputes@.len(),
            forall|k: int|
                0 <= k < normalized@.len() ==> (#[trigger] normalized@[k])@ == actor_id(
                    deputes@[k].id@,
                ),
            is_resolution(resolved@, deputes@, dossiers@, i as int),
        decreases dossiers@.len() - i,
    {
        let ghost before = resolved@;
        if is_retained(&dossiers[i]) {
            let r = resolve_dossier(i, deputes, &normalized, dossiers);
            resolved.push(r);
            proof {
                assert forall|p: int| 0 <= p < before.len() implies resolved@[p] == before[p] by {}
                assert forall|x: int|
                    0 <= x < i + 1 && x < dossiers@.len() && retained(
                        #[trigger] dossiers@[x],
                    ) implies exists|p: int|
                    0 <= p < resolved@.len() && (#[trigger] resolved@[p]).index == x by {
                    if x < i {
                        let p = choose|p: int|
                            0 <= p < before.len() && (#[trigger] before[p]).index == x;
                        assert(resolved@[p].index == x);
                    } else {
                        assert(resolved@[before.len() as int].index == x);
                    }
                }
            }
        }
        i += 1;
    }
    resolved
}

/// The author of the bill counts for the group.
pub open spec fn author_in(r: ResolvedDossier, g: Seq<char>) -> bool {
    r.author matches Some(a) && a.group_id@ == g
}

pub open spec fn signer_in(g: Seq<char>) -> spec_fn(ResolvedSigner) -> bool {
    |s: ResolvedSigner| s.group_id@ == g
}

/// How many co-signers of the bill count for the group.
pub open spec fn cosigners_in(r: ResolvedDossier, g: Seq<char>) -> nat {
    crate::counting::count_if(r.cosigners@, signer_in(g))
}

/// Some signer of the bill counts for the group.
pub open spec fn touches(r: ResolvedDossier, g: Seq<char>) -> bool {
    author_in(r, g) || cosigners_in(r, g) > 0
}

/// The signers of a bill in the order in which they count: the author,
/// then the co-signers.
pub open spec fn signers_of(r: ResolvedDossier) -> Seq<ResolvedSigner> {
    match r.author {
        Some(a) => seq![a] + r.cosigners@,
        None => r.cosigners@,
    }
}

/// The name under which a signer is shown, if they resolve to a
/// representative whose name is not blank.
pub open spec fn shown_name(s: ResolvedSigner, deputes: Seq<Depute>) -> Option<Seq<char>> {
    match s.deputy {
        Some(i) => if i < deputes.len() && collapse_whitespace(full_name_of(deputes[i as int])).len()
            > 0 {
            Some(collapse_whitespace(full_name_of(deputes[i as int])))
        } else {
            None
        },
        None => None,
    }
}

/// The signers of the list that count for the group and are shown by
/// name, in order.
pub open spec fn shown_signers(signers: Seq<ResolvedSigner>, g: Seq<char>, deputes: Seq<Depute>)
    -> Seq<ResolvedSigner>
    decreases signers.len(),
{
    if signers.len() == 0 {
        Seq::empty()
    } else {
        let head = shown_signers(signers.drop_last(), g, deputes);
        let s = signers.last();
        if s.group_id@ == g && shown_name(s, deputes) is Some {
            head.push(s)
        } else {
            head
        }
    }
}

/// How many signers a bill shows by name for a group.
pub const SIGNER_PREVIEW_LIMIT: usize = 6;

/// The entry shows the signer: the normalised id of the representative and
/// their name.
pub open spec fn preview_shows(e: SignerPreviewEntry, name: String, s: ResolvedSigner, deputes: Seq<
    Depute,
>) -> bool {
    &&& s.deputy matches Some(i) && i < deputes.len() && opt_text(e.deputy_id) == Some(
        actor_id(deputes[i as int].id@),
    )
    &&& Some(e.deputy_name@) == shown_name(s, deputes)
    &&& name@ == e.deputy_name@
}

/// The item is that of the bill as seen from the group.
pub open spec fn is_item_for(
    item: GroupPplItemSummary,
    g: Seq<char>,
    r: ResolvedDossier,
    deputes: Seq<Depute>,
    dossiers: Seq<Dossier>,
) -> bool {
    let d = dossiers[r.index as int];
    let shown = shown_signers(signers_of(r), g, deputes);
    let author: nat = if author_in(r, g) {
        1
    } else {
        0
    };
    &&& item.ppl_id@ == d.id@
    &&& opt_text(item.number) == opt_text(d.numero)
    &&& item.legislature == legislature_number(d)
    &&& item.title@ == collapse_whitespace(d.titre@)
    &&& opt_text(item.deposit_date) == match d.date_depot {
        Some(day) => Some(crate::dates::date_text(day.day())),
        None => None,
    }
    &&& opt_text(item.source_url) == opt_text(d.source_url)
    &&& item.author_count == author
    &&& item.cosigner_count == if cosigners_in(r, g) > u16::MAX {
        u16::MAX as nat
    } else {
        cosigners_in(r, g)
    }
    &&& item.total_signers_from_group == if author + cosigners_in(r, g) > u16::MAX {
        u16::MAX as nat
    } else {
        author + cosigners_in(r, g)
    }
    &&& item.has_author == author_in(r, g)
    &&& item.signers_preview@.len() == item.signer_names_preview@.len()
    &&& item.signers_preview@.len() == if shown.len() > SIGNER_PREVIEW_LIMIT {
        SIGNER_PREVIEW_LIMIT as nat
    } else {
        shown.len()
    }
    &&& forall|k: int|
        0 <= k < item.signers_preview@.len() ==> preview_shows(
            #[trigger] item.signers_preview@[k],
            item.signer_names_preview@[k],
            shown[k],
            deputes,
        )
}

fn count_in_group(cosigners: &Vec<ResolvedSigner>, g: &String) -> (r: usize)
    ensures
        r == crate::counting::count_if(cosigners@, signer_in(g@)),
{
    let mut n: usize = 0;
    let mut i: usize = 0;
    while i < cosigners.len()
        invariant
            i <= cosigners@.len(),
            n == crate::counting::count_if(cosigners@.take(i as int), signer_in(g@)),
            n <= i,
        decreases cosigners@.len() - i,
    {
        proof {
            crate::counting::lemma_count_step(cosigners@, i as int, signer_in(g@));
        }
        if cosigners[i].group_id == *g {
            n += 1;
        }
        i += 1;
    }
    assert(cosigners@.take(cosigners@.len() as int) == cosigners@);
    n
}

/// Adds the signer to the preview when they count for the group, are shown
/// by name, and the preview is not full.
fn preview_signer(
    names: &mut Vec<String>,
    entries: &mut Vec<SignerPreviewEntry>,
    s: &ResolvedSigner,
    g: &String,
    deputes: &Vec<Depute>,
    Ghost(before): Ghost<Seq<ResolvedSigner>>,
)
    requires
        s.deputy matches Some(i) ==> i < deputes@.len(),
        previews(old(names)@, old(entries)@, shown_signers(before, g@, deputes@), deputes@),
    ensures
        previews(
            final(names)@,
            final(entries)@,
            shown_signers(before.push(*s), g@, deputes@),
            deputes@,
        ),
{
    let ghost shown_before = shown_signers(before, g@, deputes@);
    let ghost shown_after = shown_signers(before.push(*s), g@, deputes@);
    proof {
        assert(before.push(*s).drop_last() == before);
    }
    if !(s.group_id == *g) {
        return ;
    }
    match s.deputy {
        Some(i) => {
            let name = normalize_whitespace(full_name(&deputes[i]).as_str());
            if name.as_str().is_empty() {
                return ;
            }
            if entries.len() < SIGNER_PREVIEW_LIMIT {
                names.push(name.clone());
                entries.push(
                    SignerPreviewEntry {
                        deputy_id: Some(normalize_actor_id(deputes[i].id.as_str())),
                        deputy_name: name,
                    },
                );
            }
        },
        None => {},
    }
}

/// The preview holds the first signers of those shown, up to the limit.
pub open spec fn previews(
    names: Seq<String>,
    entries: Seq<SignerPreviewEntry>,
    shown: Seq<ResolvedSigner>,
    deputes: Seq<Depute>,
) -> bool {
    &&& entries.len() == names.len()
    &&& entries.len() == if shown.len() > SIGNER_PREVIEW_LIMIT {
        SIGNER_PREVIEW_LIMIT as nat
    } else {
        shown.len()
    }
    &&& forall|k: int|
        0 <= k < entries.len() ==> preview_shows(#[trigger] entries[k], names[k], shown[k], deputes)
}

/// The item of a bill as seen from a group that one of its signers counts
/// for.
pub(crate) fn group_item(r: &ResolvedDossier, g: &String, deputes: &Vec<Depute>, dossiers: &Vec<Dossier>)
    -> (item: GroupPplItemSummary)
    requires
        r.is_resolution_of(deputes@, dossiers@),
    ensures
        is_item_for(item, g@, *r, deputes@, dossiers@),
{
    let d = &dossiers[r.index];
    let mut names: Vec<String> = Vec::new();
    let mut entries: Vec<SignerPreviewEntry> = Vec::new();
    let ghost mut done: Seq<ResolvedSigner> = Seq::empty();
    let mut author_count: u16 = 0;
    match &r.author {
        Some(a) => {
            if a.group_id == *g {
                author_count = 1;
            }
            preview_signer(&mut names, &mut entries, a, g, deputes, Ghost(done));
            proof {
                done = done.push(*a);
            }
        },
        None => {},
    }
    let mut k: usize = 0;
    while k < r.cosigners.len()
        invariant
            k <= r.cosigners@.len(),
            r.is_resolution_of(deputes@, dossiers@),
            done == match r.author {
                Some(a) => seq![a] + r.cosigners@.take(k as int),
                None => r.cosigners@.take(k as int),
            },
            previews(names@, entries@, shown_signers(done, g@, deputes@), deputes@),
        decreases r.cosigners@.len() - k,
    {
        let s = &r.cosigners[k];
        proof {
            let keys = cosigner_keys(
                opt_text(dossiers@[r.index as int].auteur_id),
                dossiers@[r.index as int].cosignataires_ids@,
            );
            assert(r.cosigners@[k as int].is_signer(deputes@, keys[k as int]));
        }
        preview_signer(&mut names, &mut entries, s, g, deputes, Ghost(done));
        proof {
            assert(r.cosigners@.take(k + 1) == r.cosigners@.take(k as int).push(*s));
            if r.author is Some {
                let ghost a = r.author->0;
                assert((seq![a] + r.cosigners@.take(k as int)).push(*s) == seq![a]
                    + r.cosigners@.take(k + 1));
            }
            done = done.push(*s);
        }
        k += 1;
    }
    assert(r.cosigners@.take(r.cosigners@.len() as int) == r.cosigners@);
    let cosigners = count_in_group(&r.cosigners, g);
    let cosigner_count = saturating_u16(cosigners);
    let total = if cosigners >= u16::MAX as usize {
        u16::MAX
    } else {
        saturating_u16(cosigners + author_count as usize)
    };
    GroupPplItemSummary {
        ppl_id: d.id.clone(),
        number: crate::text::clone_opt(&d.numero),
        legislature: legislature_of(d),
        title: normalize_whitespace(d.titre.as_str()),
        deposit_date: match &d.date_depot {
            Some(day) => Some(day.to_text()),
            None => None,
        },
        source_url: crate::text::clone_opt(&d.source_url),
        author_count,
        cosigner_count,
        total_signers_from_group: total,
        has_author: author_count > 0,
        signer_names_preview: names,
        signers_preview: entries,
    }
}

/// A political group as the shards name it.
#[derive(Debug, Clone)]
pub struct GroupRef {
    pub id: String,
    pub label: String,
}

/// The signers of all bills, in the order in which they count.
pub open spec fn all_signers(resolved: Seq<ResolvedDossier>) -> Seq<ResolvedSigner>
    decreases resolved.len(),
{
    if resolved.len() == 0 {
        Seq::empty()
    } else {
        all_signers(resolved.drop_last()) + signers_of(resolved.last())
    }
}

/// The label that the first signer of the group gives it.
pub open spec fn first_label(signers: Seq<ResolvedSigner>, g: Seq<char>) -> Option<Seq<char>>
    decreases signers.len(),
{
    if signers.len() == 0 {
        None
    } else {
        match first_label(signers.drop_last(), g) {
            Some(l) => Some(l),
            None => if signers.last().group_id@ == g {
                Some(signers.last().group_label@)
            } else {
                None
            },
        }
    }
}

/// The list holds each group that a signer counts for once, under the
/// label that its first signer gives it.
pub open spec fn are_groups(groups: Seq<GroupRef>, signers: Seq<ResolvedSigner>) -> bool {
    &&& forall|a: int, b: int|
        0 <= a < b < groups.len() ==> (#[trigger] groups[a]).id@ != (#[trigger] groups[b]).id@
    &&& forall|k: int|
        0 <= k < groups.len() ==> first_label(signers, (#[trigger] groups[k]).id@) == Some(
            groups[k].label@,
        )
    &&& forall|g: Seq<char>|
        (#[trigger] first_label(signers, g)) is Some ==> exists|k: int|
            0 <= k < groups.len() && (#[trigger] groups[k]).id@ == g
}

fn find_group(groups: &Vec<GroupRef>, id: &String) -> (r: bool)
    ensures
        r == exists|k: int| 0 <= k < groups@.len() && (#[trigger] groups@[k]).id@ == id@,
{
    let mut k: usize = 0;
    while k < groups.len()
        invariant
            k <= groups@.len(),
            forall|x: int| 0 <= x < k ==> (#[trigger] groups@[x]).id@ != id@,
        decreases groups@.len() - k,
    {
        if groups[k].id == *id {
            return true;
        }
        k += 1;
    }
    false
}

fn note_group(groups: &mut Vec<GroupRef>, s: &ResolvedSigner, Ghost(seen): Ghost<
    Seq<ResolvedSigner>,
>)
    requires
        are_groups(old(groups)@, seen),
    ensures
        are_groups(final(groups)@, seen.push(*s)),
{
    let ghost before = groups@;
    let ghost more = seen.push(*s);
    proof {
        assert(more.drop_last() == seen);
        assert(more.last() == *s);
    }
    if !find_group(groups, &s.group_id) {
        groups.push(GroupRef { id: s.group_id.clone(), label: s.group_label.clone() });
        proof {
            assert forall|k: int| 0 <= k < before.len() implies groups@[k] == before[k] by {}
            assert(first_label(seen, s.group_id@) is None);
            assert forall|g: Seq<char>| (#[trigger] first_label(more, g)) is Some implies exists|
                k: int,
            |
                0 <= k < groups@.len() && (#[trigger] groups@[k]).id@ == g by {
                if first_label(seen, g) is Some {
                    let k = choose|k: int| 0 <= k < before.len() && (#[trigger] before[k]).id@ == g;
                    assert(groups@[k].id@ == g);
                } else {
                    assert(groups@[before.len() as int].id@ == g);
                }
            }
        }
    } else {
        proof {
            assert forall|g: Seq<char>| (#[trigger] first_label(more, g)) is Some implies exists|
                k: int,
            |
                0 <= k < groups@.len() && (#[trigger] groups@[k]).id@ == g by {
                if first_label(seen, g) is Some {
                } else {
                    assert(g == s.group_id@);
                }
            }
            assert forall|k: int| 0 <= k < groups@.len() implies first_label(
                more,
                (#[trigger] groups@[k]).id@,
            ) == Some(groups@[k].label@) by {
                assert(first_label(seen, groups@[k].id@) == Some(groups@[k].label@));
            }
        }
    }
}

/// The groups that the signers of the bills count for.
pub(crate) fn collect_groups(resolved: &Vec<ResolvedDossier>) -> (groups: Vec<GroupRef>)
    ensures
        are_groups(groups@, all_signers(resolved@)),
{
    let mut groups: Vec<GroupRef> = Vec::new();
    let ghost mut seen: Seq<ResolvedSigner> = Seq::empty();
    let mut p: usize = 0;
    assert(all_signers(resolved@.take(0)) == Seq::<ResolvedSigner>::empty());
    while p < resolved.len()
        invariant
            p <= resolved@.len(),
            seen == all_signers(resolved@.take(p as int)),
            are_groups(groups@, seen),
        decreases resolved@.len() - p,
    {
        let r = &resolved[p];
        let ghost start = seen;
        proof {
            assert(resolved@.take(p + 1).drop_last() == resolved@.take(p as int));
            assert(resolved@.take(p + 1).last() == *r);
        }
        match &r.author {
            Some(a) => {
                note_group(&mut groups, a, Ghost(seen));
                proof {
                    seen = seen.push(*a);
                }
            },
            None => {},
        }
        let ghost after_author = seen;
        let mut k: usize = 0;
        assert(r.cosigners@.take(0) == Seq::<ResolvedSigner>::empty());
        assert(after_author + Seq::<ResolvedSigner>::empty() == after_author);
        while k < r.cosigners.len()
            invariant
                k <= r.cosigners@.len(),
                seen == after_author + r.cosigners@.take(k as int),
                are_groups(groups@, seen),
            decreases r.cosigners@.len() - k,
        {
            note_group(&mut groups, &r.cosigners[k], Ghost(seen));
            proof {
                assert(r.cosigners@.take(k + 1) == r.cosigners@.take(k as int).push(
                    r.cosigners@[k as int],
                ));
                assert((after_author + r.cosigners@.take(k as int)).push(r.cosigners@[k as int])
                    == after_author + r.cosigners@.take(k + 1));
                seen = seen.push(r.cosigners@[k as int]);
            }
            k += 1;
        }
        proof {
            assert(r.cosigners@.take(r.cosigners@.len() as int) == r.cosigners@);
            if r.author is Some {
                let ghost a = r.author->0;
                assert(start.push(a) + r.cosigners@ == start + (seq![a] + r.cosigners@));
            }
            assert(seen == start + signers_of(*r));
        }
        p += 1;
    }
    assert(resolved@.take(resolved@.len() as int) == resolved@);
    groups
}

/// The positions of the bills that have a signer counting for the group.
pub open spec fn touching(resolved: Seq<ResolvedDossier>, g: Seq<char>) -> Seq<int>
    decreases resolved.len(),
{
    if resolved.len() == 0 {
        Seq::empty()
    } else {
        let head = touching(resolved.drop_last(), g);
        if touches(resolved.last(), g) {
            head.push(resolved.len() - 1)
        } else {
            head
        }
    }
}

/// The items are those of the bills that touch the group, one for each, in
/// the order of the bills.
pub open spec fn are_items_of(
    items: Seq<GroupPplItemSummary>,
    g: Seq<char>,
    resolved: Seq<ResolvedDossier>,
    deputes: Seq<Depute>,
    dossiers: Seq<Dossier>,
) -> bool {
    let pos = touching(resolved, g);
    &&& items.len() == pos.len()
    &&& forall|k: int|
        0 <= k < items.len() ==> is_item_for(
            #[trigger] items[k],
            g,
            resolved[pos[k]],
            deputes,
            dossiers,
        )
}

/// The positions of the bills that touch a group are positions of bills,
/// in rising order, and the bills at them touch the group.
pub proof fn lemma_touching(resolved: Seq<ResolvedDossier>, g: Seq<char>)
    ensures
        forall|k: int|
            0 <= k < touching(resolved, g).len() ==> 0 <= (#[trigger] touching(resolved, g)[k])
                < resolved.len() && touches(resolved[touching(resolved, g)[k]], g),
        forall|a: int, b: int|
            0 <= a < b < touching(resolved, g).len() ==> (#[trigger] touching(resolved, g)[a]) < (
            #[trigger] touching(resolved, g)[b]),
        forall|p: int|
            0 <= p < resolved.len() && touches(#[trigger] resolved[p], g) ==> touching(
                resolved,
                g,
            ).contains(p),
    decreases resolved.len(),
{
    if resolved.len() > 0 {
        let head = resolved.drop_last();
        lemma_touching(head, g);
        let pos = touching(resolved, g);
        let before = touching(head, g);
        assert forall|k: int| 0 <= k < pos.len() implies 0 <= (#[trigger] pos[k]) < resolved.len()
            && touches(resolved[pos[k]], g) by {
            if k < before.len() {
                assert(pos[k] == before[k]);
                assert(head[before[k]] == resolved[before[k]]);
            }
        }
        assert forall|a: int, b: int| 0 <= a < b < pos.len() implies (#[trigger] pos[a]) < (
        #[trigger] pos[b]) by {
            assert(pos[a] == before[a]);
            if b < before.len() {
                assert(pos[b] == before[b]);
            }
        }
        assert forall|p: int| 0 <= p < resolved.len() && touches(
            #[trigger] resolved[p],
            g,
        ) implies pos.contains(p) by {
            if p < head.len() {
                assert(head[p] == resolved[p]);
                let k = choose|k: int| 0 <= k < before.len() && before[k] == p;
                assert(pos[k] == p);
            } else {
                assert(pos[pos.len() - 1] == p);
            }
        }
    }
}

pub open spec fn all_resolved(
    resolved: Seq<ResolvedDossier>,
    deputes: Seq<Depute>,
    dossiers: Seq<Dossier>,
) -> bool {
    forall|p: int|
        0 <= p < resolved.len() ==> (#[trigger] resolved[p]).is_resolution_of(deputes, dossiers)
}

fn group_items(
    g: &String,
    resolved: &Vec<ResolvedDossier>,
    deputes: &Vec<Depute>,
    dossiers: &Vec<Dossier>,
) -> (items: Vec<GroupPplItemSummary>)
    requires
        all_resolved(resolved@, deputes@, dossiers@),
    ensures
        are_items_of(items@, g@, resolved@, deputes@, dossiers@),
{
    let mut items: Vec<GroupPplItemSummary> = Vec::new();
    let mut p: usize = 0;
    assert(touching(resolved@.take(0), g@) == Seq::<int>::empty());
    while p < resolved.len()
        invariant
            p <= resolved@.len(),
            all_resolved(resolved@, deputes@, dossiers@),
            items@.len() == touching(resolved@.take(p as int), g@).len(),
            forall|k: int|
                0 <= k < items@.len() ==> is_item_for(
                    #[trigger] items@[k],
                    g@,
                    resolved@[touching(resolved@.take(p as int), g@)[k]],
                    deputes@,
                    dossiers@,
                ),
        decreases resolved@.len() - p,
    {
        let r = &resolved[p];
        let ghost before = items@;
        let ghost pos = touching(resolved@.take(p as int), g@);
        proof {
            assert(resolved@.take(p + 1).drop_last() == resolved@.take(p as int));
            assert(resolved@.take(p + 1).last() == *r);
        }
        let by_author = match &r.author {
            Some(a) => a.group_id == *g,
            None => false,
        };
        assert(by_author == author_in(*r, g@));
        if by_author || count_in_group(&r.cosigners, g) > 0 {
            assert(touches(*r, g@));
            let item = group_item(r, g, deputes, dossiers);
            items.push(item);
            proof {
                let more = touching(resolved@.take(p + 1), g@);
                assert(resolved@.take(p + 1).len() - 1 == p);
                assert(more == pos.push(p as int));
                assert forall|k: int| 0 <= k < items@.len() implies is_item_for(
                    #[trigger] items@[k],
                    g@,
                    resolved@[more[k]],
                    deputes@,
                    dossiers@,
                ) by {
                    if k < before.len() {
                        assert(items@[k] == before[k]);
                        assert(more[k] == pos[k]);
                    } else {
                        assert(more[k] == p);
                        assert(items@[k] == item);
                    }
                }
            }
        } else {
            assert(!touches(*r, g@));
            assert(touching(resolved@.take(p + 1), g@) == pos);
        }
        p += 1;
    }
    assert(resolved@.take(resolved@.len() as int) == resolved@);
    items
}

/// The order of the items of a shard: by date of deposit, the latest
/// first and the undated last; then those with an author from the group;
/// then by number of signers, the most first; then by title.
pub open spec fn item_leq(a: GroupPplItemSummary, b: GroupPplItemSummary) -> bool {
    let da = opt_text(a.deposit_date);
    let db = opt_text(b.deposit_date);
    crate::text::opt_lex_lt(db, da) || (da == db && ((a.has_author && !b.has_author) || (
    a.has_author == b.has_author && (a.total_signers_from_group > b.total_signers_from_group || (
    a.total_signers_from_group == b.total_signers_from_group && crate::text::lex_le(
        lowercase_of(a.title@),
        lowercase_of(b.title@),
    ))))))
}

pub open spec fn item_order() -> spec_fn(GroupPplItemSummary, GroupPplItemSummary) -> bool {
    |a: GroupPplItemSummary, b: GroupPplItemSummary| item_leq(a, b)
}

proof fn lemma_item_order()
    ensures
        crate::sorting::total_preorder(item_order()),
{
    crate::text::lemma_opt_lex_order();
    crate::text::lemma_lex_le_order();
    let leq = item_order();
    assert forall|a: GroupPplItemSummary, b: GroupPplItemSummary| #[trigger]
        leq(a, b) || #[trigger] leq(b, a) by {
        let da = opt_text(a.deposit_date);
        let db = opt_text(b.deposit_date);
        assert(crate::text::opt_lex_lt(da, db) || da == db || crate::text::opt_lex_lt(db, da));
        assert(crate::text::lex_le(lowercase_of(a.title@), lowercase_of(b.title@))
            || crate::text::lex_le(lowercase_of(b.title@), lowercase_of(a.title@)));
    }
    assert forall|a: GroupPplItemSummary, b: GroupPplItemSummary, c: GroupPplItemSummary| #[trigger]
        leq(a, b) && #[trigger] leq(b, c) implies leq(a, c) by {
        let da = opt_text(a.deposit_date);
        let db = opt_text(b.deposit_date);
        let dc = opt_text(c.deposit_date);
        if crate::text::opt_lex_lt(db, da) && crate::text::opt_lex_lt(dc, db) {
            assert(crate::text::opt_lex_lt(dc, da));
        } else if da == db && db == dc {
            if a.has_author == b.has_author && b.has_author == c.has_author
                && a.total_signers_from_group == b.total_signers_from_group
                && b.total_signers_from_group == c.total_signers_from_group {
                assert(crate::text::lex_le(lowercase_of(a.title@), lowercase_of(b.title@))
                    && crate::text::lex_le(lowercase_of(b.title@), lowercase_of(c.title@)));
            }
        }
    }
}

/// Whether the text of `a` in lower case comes before that of `b`, or is
/// the same.
pub fn lowercase_not_after(a: &str, b: &str) -> (r: bool)
    ensures
        r == crate::text::lex_le(lowercase_of(a@), lowercase_of(b@)),
{
    let x = str_to_lowercase(a);
    let y = str_to_lowercase(b);
    proof {
        crate::text::lemma_lex_total(x@, y@);
    }
    !crate::text::str_lt(y.as_str(), x.as_str())
}

fn item_not_after(a: &GroupPplItemSummary, b: &GroupPplItemSummary) -> (r: bool)
    ensures
        r == item_leq(*a, *b),
{
    proof {
        crate::text::lemma_opt_lex_order();
        let da = opt_text(a.deposit_date);
        let db = opt_text(b.deposit_date);
        assert(crate::text::opt_lex_lt(da, db) || da == db || crate::text::opt_lex_lt(db, da));
        assert(!(crate::text::opt_lex_lt(da, db) && crate::text::opt_lex_lt(db, da)));
        assert(!crate::text::opt_lex_lt(da, da));
    }
    if crate::text::opt_str_lt(&b.deposit_date, &a.deposit_date) {
        true
    } else if crate::text::opt_str_lt(&a.deposit_date, &b.deposit_date) {
        false
    } else if a.has_author != b.has_author {
        a.has_author
    } else if a.total_signers_from_group != b.total_signers_from_group {
        a.total_signers_from_group > b.total_signers_from_group
    } else {
        lowercase_not_after(a.title.as_str(), b.title.as_str())
    }
}

/// The shard is that of the group: the items of the bills that touch the
/// group, sorted.
pub open spec fn is_group_shard(
    shard: GroupPplGroupShard,
    group_id: Seq<char>,
    group_label: Seq<char>,
    generated_at: Seq<char>,
    resolved: Seq<ResolvedDossier>,
    deputes: Seq<Depute>,
    dossiers: Seq<Dossier>,
) -> bool {
    &&& shard.version == 1
    &&& shard.generated_at@ == generated_at
    &&& shard.group_id@ == group_id
    &&& shard.group_label@ == group_label
    &&& shard.total_entries == shard.items@.len()
    &&& exists|unsorted: Seq<GroupPplItemSummary>| #[trigger]
        are_items_of(unsorted, group_id, resolved, deputes, dossiers) && crate::sorting::is_sorted_rearrangement(
            shard.items@,
            unsorted,
            item_order(),
        )
}

/// The shard of a group.
pub(crate) fn group_shard(
    g: &GroupRef,
    generated_at: &str,
    resolved: &Vec<ResolvedDossier>,
    deputes: &Vec<Depute>,
    dossiers: &Vec<Dossier>,
) -> (shard: GroupPplGroupShard)
    requires
        all_resolved(resolved@, deputes@, dossiers@),
    ensures
        is_group_shard(shard, g.id@, g.label@, generated_at@, resolved@, deputes@, dossiers@),
{
    let mut items = group_items(&g.id, resolved, deputes, dossiers);
    let ghost unsorted = items@;
    proof {
        lemma_item_order();
    }
    let le = |a: &GroupPplItemSummary, b: &GroupPplItemSummary| -> (r: bool)
        ensures
            r == item_leq(*a, *b),
        { item_not_after(a, b) };
    crate::sorting::sort_by(&mut items, le, Ghost(item_order()));
    proof {
        assert(are_items_of(unsorted, g.id@, resolved@, deputes@, dossiers@)
            && crate::sorting::is_sorted_rearrangement(items@, unsorted, item_order()));
    }
    GroupPplGroupShard {
        version: 1,
        generated_at: generated_at.to_string(),
        group_id: g.id.clone(),
        group_label: g.label.clone(),
        total_entries: items.len(),
        items,
    }
}

/// The shard of a group is well formed: it states the group under the
/// label of its first signer and lists, sorted, the items of the bills
/// that touch the group.
pub open spec fn is_shard_of_group(
    shard: GroupPplGroupShard,
    generated_at: Seq<char>,
    resolved: Seq<ResolvedDossier>,
    deputes: Seq<Depute>,
    dossiers: Seq<Dossier>,
) -> bool {
    &&& first_label(all_signers(resolved), shard.group_id@) == Some(shard.group_label@)
    &&& is_group_shard(
        shard,
        shard.group_id@,
        shard.group_label@,
        generated_at,
        resolved,
        deputes,
        dossiers,
    )
}

/// The order of the group shards: by label without regard to case, then by
/// id.
pub open spec fn shard_leq(a: GroupPplGroupShard, b: GroupPplGroupShard) -> bool {
    crate::text::lex_lt(lowercase_of(a.group_label@), lowercase_of(b.group_label@)) || (
    lowercase_of(a.group_label@) == lowercase_of(b.group_label@) && crate::text::lex_le(
        a.group_id@,
        b.group_id@,
    ))
}

pub open spec fn shard_order() -> spec_fn(GroupPplGroupShard, GroupPplGroupShard) -> bool {
    |a: GroupPplGroupShard, b: GroupPplGroupShard| shard_leq(a, b)
}

/// The order by a name without regard to case and then by an id is total
/// and transitive.
pub proof fn lemma_name_id_order(
    a: (Seq<char>, Seq<char>),
    b: (Seq<char>, Seq<char>),
    c: (Seq<char>, Seq<char>),
)
    ensures
        name_id_leq(a, b) || name_id_leq(b, a),
        name_id_leq(a, b) && name_id_leq(b, c) ==> name_id_leq(a, c),
{
    crate::text::lemma_lex_le_order();
    crate::text::lemma_lex_total(lowercase_of(a.0), lowercase_of(b.0));
    crate::text::lemma_lex_total(lowercase_of(b.0), lowercase_of(c.0));
    crate::text::lemma_lex_total(lowercase_of(a.0), lowercase_of(c.0));
    if crate::text::lex_lt(lowercase_of(a.0), lowercase_of(b.0)) && crate::text::lex_lt(
        lowercase_of(b.0),
        lowercase_of(c.0),
    ) {
        crate::text::lemma_lex_transitive(lowercase_of(a.0), lowercase_of(b.0), lowercase_of(c.0));
    }
    assert(crate::text::lex_le(a.1, b.1) || crate::text::lex_le(b.1, a.1));
    if crate::text::lex_le(a.1, b.1) && crate::text::lex_le(b.1, c.1) {
        assert(crate::text::lex_le(a.1, c.1));
    }
}

/// The order of pairs of a name and an id: by the name in lower case, then
/// by the id.
pub open spec fn name_id_leq(a: (Seq<char>, Seq<char>), b: (Seq<char>, Seq<char>)) -> bool {
    text_pair_leq((lowercase_of(a.0), a.1), (lowercase_of(b.0), b.1))
}

/// The order of pairs of texts: by the first, then by the second.
pub open spec fn text_pair_leq(a: (Seq<char>, Seq<char>), b: (Seq<char>, Seq<char>)) -> bool {
    crate::text::lex_lt(a.0, b.0) || (a.0 == b.0 && crate::text::lex_le(a.1, b.1))
}

/// Compares two pairs of texts: by the first, then by the second.
pub fn text_pair_not_after(a0: &str, a1: &str, b0: &str, b1: &str) -> (r: bool)
    ensures
        r == text_pair_leq((a0@, a1@), (b0@, b1@)),
{
    proof {
        crate::text::lemma_lex_total(a0@, b0@);
        crate::text::lemma_lex_total(a1@, b1@);
    }
    if crate::text::str_lt(a0, b0) {
        true
    } else if crate::text::str_lt(b0, a0) {
        false
    } else {
        !crate::text::str_lt(b1, a1)
    }
}

/// Compares two pairs of a name and an id.
pub fn name_id_not_after(name_a: &str, id_a: &str, name_b: &str, id_b: &str) -> (r: bool)
    ensures
        r == name_id_leq((name_a@, id_a@), (name_b@, id_b@)),
{
    let x = str_to_lowercase(name_a);
    let y = str_to_lowercase(name_b);
    text_pair_not_after(x.as_str(), id_a, y.as_str(), id_b)
}

proof fn lemma_shard_order()
    ensures
        crate::sorting::total_preorder(shard_order()),
{
    let leq = shard_order();
    assert forall|a: GroupPplGroupShard, b: GroupPplGroupShard| #[trigger]
        leq(a, b) || #[trigger] leq(b, a) by {
        lemma_name_id_order(
            (a.group_label@, a.group_id@),
            (b.group_label@, b.group_id@),
            (a.group_label@, a.group_id@),
        );
    }
    assert forall|a: GroupPplGroupShard, b: GroupPplGroupShard, c: GroupPplGroupShard| #[trigger]
        leq(a, b) && #[trigger] leq(b, c) implies leq(a, c) by {
        lemma_name_id_order(
            (a.group_label@, a.group_id@),
            (b.group_label@, b.group_id@),
            (c.group_label@, c.group_id@),
        );
    }
}

/// The shards are those of the groups that the signers count for: one for
/// each group, sorted.
pub open spec fn are_group_shards(
    shards: Seq<GroupPplGroupShard>,
    generated_at: Seq<char>,
    resolved: Seq<ResolvedDossier>,
    deputes: Seq<Depute>,
    dossiers: Seq<Dossier>,
) -> bool {
    &&& forall|k: int|
        0 <= k < shards.len() ==> is_shard_of_group(
            #[trigger] shards[k],
            generated_at,
            resolved,
            deputes,
            dossiers,
        )
    &&& forall|a: int, b: int|
        0 <= a < b < shards.len() ==> (#[trigger] shards[a]).group_id@ != (
        #[trigger] shards[b]).group_id@
    &&& forall|g: Seq<char>|
        (#[trigger] first_label(all_signers(resolved), g)) is Some ==> exists|k: int|
            0 <= k < shards.len() && (#[trigger] shards[k]).group_id@ == g
    &&& vstd::relations::sorted_by(shards, shard_order())
}

/// The shards of all groups.
pub(crate) fn group_shards(
    generated_at: &str,
    resolved: &Vec<ResolvedDossier>,
    deputes: &Vec<Depute>,
    dossiers: &Vec<Dossier>,
) -> (shards: Vec<GroupPplGroupShard>)
    requires
        all_resolved(resolved@, deputes@, dossiers@),
    ensures
        are_group_shards(shards@, generated_at@, resolved@, deputes@, dossiers@),
{
    let groups = collect_groups(resolved);
    let ghost signers = all_signers(resolved@);
    let mut shards: Vec<GroupPplGroupShard> = Vec::new();
    let mut k: usize = 0;
    while k < groups.len()
        invariant
            k <= groups@.len(),
            all_resolved(resolved@, deputes@, dossiers@),
            signers == all_signers(resolved@),
            are_groups(groups@, signers),
            shards@.len() == k,
            forall|x: int|
                0 <= x < k ==> is_shard_of_group(
                    #[trigger] shards@[x],
                    generated_at@,
                    resolved@,
                    deputes@,
                    dossiers@,
                ) && shards@[x].group_id@ == groups@[x].id@,
        decreases groups@.len() - k,
    {
        let ghost before = shards@;
        let shard = group_shard(&groups[k], generated_at, resolved, deputes, dossiers);
        proof {
            assert(first_label(signers, groups@[k as int].id@) == Some(groups@[k as int].label@));
        }
        shards.push(shard);
        proof {
            assert forall|x: int| 0 <= x < k + 1 implies is_shard_of_group(
                #[trigger] shards@[x],
                generated_at@,
                resolved@,
                deputes@,
                dossiers@,
            ) && shards@[x].group_id@ == groups@[x].id@ by {
                if x < k {
                    assert(shards@[x] == before[x]);
                }
            }
        }
        k += 1;
    }
    let ghost unsorted = shards@;
    proof {
        lemma_shard_order();
    }
    let le = |a: &GroupPplGroupShard, b: &GroupPplGroupShard| -> (r: bool)
        ensures
            r == shard_leq(*a, *b),
        {
            name_id_not_after(
                a.group_label.as_str(),
                a.group_id.as_str(),
                b.group_label.as_str(),
                b.group_id.as_str(),
            )
        };
    crate::sorting::sort_by(&mut shards, le, Ghost(shard_order()));
    proof {
        let sorted = shards@;
        crate::sorting::lemma_rearranged(unsorted, sorted);
        assert(unsorted.no_duplicates()) by {
            assert forall|a: int, b: int|
                0 <= a < unsorted.len() && 0 <= b < unsorted.len() && a != b implies unsorted[a]
                != unsorted[b] by {
                if a < b {
                    assert(groups@[a].id@ != groups@[b].id@);
                } else {
                    assert(groups@[b].id@ != groups@[a].id@);
                }
            }
        }
        assert forall|x: int| 0 <= x < sorted.len() implies is_shard_of_group(
            #[trigger] sorted[x],
            generated_at@,
            resolved@,
            deputes@,
            dossiers@,
        ) by {
            assert(unsorted.contains(sorted[x]));
        }
        assert forall|a: int, b: int| 0 <= a < b < sorted.len() implies (
        #[trigger] sorted[a]).group_id@ != (#[trigger] sorted[b]).group_id@ by {
            assert(unsorted.contains(sorted[a]));
            assert(unsorted.contains(sorted[b]));
            let x = choose|x: int| 0 <= x < unsorted.len() && unsorted[x] == sorted[a];
            let y = choose|y: int| 0 <= y < unsorted.len() && unsorted[y] == sorted[b];
            assert(sorted[a] != sorted[b]);
            if x < y {
                assert(groups@[x].id@ != groups@[y].id@);
            } else {
                assert(groups@[y].id@ != groups@[x].id@);
            }
        }
        assert forall|g: Seq<char>| (#[trigger] first_label(signers, g)) is Some implies exists|
            x: int,
        |
            0 <= x < sorted.len() && (#[trigger] sorted[x]).group_id@ == g by {
            let u = choose|u: int| 0 <= u < groups@.len() && (#[trigger] groups@[u]).id@ == g;
            assert(unsorted[u].group_id@ == g);
            assert(sorted.contains(unsorted[u]));
            let x = choose|x: int| 0 <= x < sorted.len() && sorted[x] == unsorted[u];
            assert(sorted[x].group_id@ == g);
        }
    }
    shards
}

/// The file of the shard of a group, below the directory of the linkage.
pub open spec fn group_file(group_id: Seq<char>) -> Seq<char> {
    "groups/"@ + shard_stem(group_id) + ".json"@
}

/// A sum of sizes that stays at the largest size once it reaches it.
pub open spec fn capped(n: nat) -> usize {
    if n > usize::MAX {
        usize::MAX
    } else {
        n as usize
    }
}

pub open spec fn entries_of(shard: GroupPplGroupShard) -> nat {
    shard.total_entries as nat
}

/// The entry of the index states the shard.
pub open spec fn is_index_entry(e: GroupPplGroupIndexEntry, shard: GroupPplGroupShard) -> bool {
    &&& e.group_id@ == shard.group_id@
    &&& e.group_label@ == shard.group_label@
    &&& e.ppl_count == shard.total_entries
    &&& e.authored_ppl_count == crate::counting::count_if(shard.items@, with_author())
    &&& e.authored_ppl_count + e.cosigned_only_ppl_count == shard.items@.len()
    &&& e.file@ == group_file(shard.group_id@)
}

/// The index states the shards, one entry for each in their order, and
/// the totals.
pub open spec fn is_index(
    index: GroupPplIndex,
    shards: Seq<GroupPplGroupShard>,
    generated_at: Seq<char>,
    unique_ppl: nat,
) -> bool {
    &&& index.version == 1
    &&& index.generated_at@ == generated_at
    &&& index.total_groups == shards.len()
    &&& index.groups@.len() == shards.len()
    &&& index.total_ppl_links == capped(
        crate::counting::sum_of(shards, |s: GroupPplGroupShard| entries_of(s)),
    )
    &&& index.total_unique_ppl == unique_ppl
    &&& forall|k: int|
        0 <= k < shards.len() ==> is_index_entry(#[trigger] index.groups@[k], shards[k])
}

/// Adds two sizes, staying at the largest size when the sum passes it.
pub(crate) fn add_capped(a: usize, b: usize, Ghost(x): Ghost<nat>, Ghost(y): Ghost<nat>) -> (r: usize)
    requires
        a == capped(x),
        b == capped(y),
    ensures
        r == capped(x + y),
{
    if a > usize::MAX - b {
        usize::MAX
    } else {
        a + b
    }
}

/// The index of the shards.
pub(crate) fn group_index(shards: &Vec<GroupPplGroupShard>, generated_at: &str, unique_ppl: usize) -> (index:
    GroupPplIndex)
    requires
        forall|k: int|
            0 <= k < shards@.len() ==> (#[trigger] shards@[k]).total_entries
                == shards@[k].items@.len(),
    ensures
        is_index(index, shards@, generated_at@, unique_ppl as nat),
{
    let ghost f = |s: GroupPplGroupShard| entries_of(s);
    let mut entries: Vec<GroupPplGroupIndexEntry> = Vec::new();
    let mut total: usize = 0;
    let mut k: usize = 0;
    while k < shards.len()
        invariant
            k <= shards@.len(),
            f == (|s: GroupPplGroupShard| entries_of(s)),
            forall|x: int|
                0 <= x < shards@.len() ==> (#[trigger] shards@[x]).total_entries
                    == shards@[x].items@.len(),
            entries@.len() == k,
            total == capped(crate::counting::sum_of(shards@.take(k as int), f)),
            forall|x: int| 0 <= x < k ==> is_index_entry(#[trigger] entries@[x], shards@[x]),
        decreases shards@.len() - k,
    {
        let shard = &shards[k];
        proof {
            crate::counting::lemma_sum_step(shards@, k as int, f);
        }
        let counts = count_authored_vs_cosigned_only(&shard.items);
        let mut file = chars_of("groups/");
        append_chars(&mut file, &chars_of(safe_file_stem(shard.group_id.as_str()).as_str()));
        append_chars(&mut file, &chars_of(".json"));
        total = add_capped(
            total,
            shard.total_entries,
            Ghost(crate::counting::sum_of(shards@.take(k as int), f)),
            Ghost(entries_of(*shard)),
        );
        entries.push(
            GroupPplGroupIndexEntry {
                group_id: shard.group_id.clone(),
                group_label: shard.group_label.clone(),
                ppl_count: shard.total_entries,
                authored_ppl_count: counts.0,
                cosigned_only_ppl_count: counts.1,
                file: text_of(&file),
            },
        );
        k += 1;
    }
    assert(shards@.take(shards@.len() as int) == shards@);
    GroupPplIndex {
        version: 1,
        generated_at: generated_at.to_string(),
        total_groups: shards.len(),
        total_ppl_links: total,
        total_unique_ppl: unique_ppl,
        groups: entries,
    }
}

pub open spec fn signer_is(x: usize) -> spec_fn(ResolvedSigner) -> bool {
    |s: ResolvedSigner| s.deputy == Some(x)
}

/// The representative at position `x` is the author of the bill.
pub open spec fn signs_as_author(r: ResolvedDossier, x: usize) -> bool {
    r.author matches Some(a) && a.deputy == Some(x)
}

/// The representative at position `x` is among the co-signers of the bill.
pub open spec fn signs_as_cosigner(r: ResolvedDossier, x: usize) -> bool {
    crate::counting::count_if(r.cosigners@, signer_is(x)) > 0
}

/// The positions of the bills that the representative signed.
pub open spec fn signed_positions(resolved: Seq<ResolvedDossier>, x: usize) -> Seq<int>
    decreases resolved.len(),
{
    if resolved.len() == 0 {
        Seq::empty()
    } else {
        let head = signed_positions(resolved.drop_last(), x);
        if signs_as_author(resolved.last(), x) || signs_as_cosigner(resolved.last(), x) {
            head.push(resolved.len() - 1)
        } else {
            head
        }
    }
}

/// The item is that of the bill as seen from the representative.
pub open spec fn is_deputy_item(
    item: DeputyPplItemSummary,
    x: usize,
    r: ResolvedDossier,
    dossiers: Seq<Dossier>,
) -> bool {
    let d = dossiers[r.index as int];
    &&& item.ppl_id@ == d.id@
    &&& opt_text(item.number) == opt_text(d.numero)
    &&& item.legislature == legislature_number(d)
    &&& item.title@ == collapse_whitespace(d.titre@)
    &&& opt_text(item.deposit_date) == match d.date_depot {
        Some(day) => Some(crate::dates::date_text(day.day())),
        None => None,
    }
    &&& opt_text(item.source_url) == opt_text(d.source_url)
    &&& item.is_author == signs_as_author(r, x)
    &&& item.is_cosigner == signs_as_cosigner(r, x)
}

pub open spec fn are_deputy_items(
    items: Seq<DeputyPplItemSummary>,
    x: usize,
    resolved: Seq<ResolvedDossier>,
    dossiers: Seq<Dossier>,
) -> bool {
    let pos = signed_positions(resolved, x);
    &&& items.len() == pos.len()
    &&& forall|k: int|
        0 <= k < items.len() ==> is_deputy_item(#[trigger] items[k], x, resolved[pos[k]], dossiers)
}

fn count_signer(cosigners: &Vec<ResolvedSigner>, x: usize) -> (r: usize)
    ensures
        r == crate::counting::count_if(cosigners@, signer_is(x)),
{
    let mut n: usize = 0;
    let mut i: usize = 0;
    while i < cosigners.len()
        invariant
            i <= cosigners@.len(),
            n == crate::counting::count_if(cosigners@.take(i as int), signer_is(x)),
            n <= i,
        decreases cosigners@.len() - i,
    {
        proof {
            crate::counting::lemma_count_step(cosigners@, i as int, signer_is(x));
        }
        match cosigners[i].deputy {
            Some(y) => {
                if y == x {
                    n += 1;
                }
            },
            None => {},
        }
        i += 1;
    }
    assert(cosigners@.take(cosigners@.len() as int) == cosigners@);
    n
}

fn deputy_items(x: usize, resolved: &Vec<ResolvedDossier>, dossiers: &Vec<Dossier>) -> (items: Vec<
    DeputyPplItemSummary,
>)
    requires
        forall|p: int| 0 <= p < resolved@.len() ==> (#[trigger] resolved@[p]).index < dossiers@.len(),
    ensures
        are_deputy_items(items@, x, resolved@, dossiers@),
{
    let mut items: Vec<DeputyPplItemSummary> = Vec::new();
    let mut p: usize = 0;
    assert(signed_positions(resolved@.take(0), x) == Seq::<int>::empty());
    while p < resolved.len()
        invariant
            p <= resolved@.len(),
            forall|q: int|
                0 <= q < resolved@.len() ==> (#[trigger] resolved@[q]).index < dossiers@.len(),
            items@.len() == signed_positions(resolved@.take(p as int), x).len(),
            forall|k: int|
                0 <= k < items@.len() ==> is_deputy_item(
                    #[trigger] items@[k],
                    x,
                    resolved@[signed_positions(resolved@.take(p as int), x)[k]],
                    dossiers@,
                ),
        decreases resolved@.len() - p,
    {
        let r = &resolved[p];
        let ghost before = items@;
        let ghost pos = signed_positions(resolved@.take(p as int), x);
        proof {
            assert(resolved@.take(p + 1).drop_last() == resolved@.take(p as int));
            assert(resolved@.take(p + 1).last() == *r);
            assert(resolved@.take(p + 1).len() - 1 == p);
        }
        let is_author = match &r.author {
            Some(a) => match a.deputy {
                Some(y) => y == x,
                None => false,
            },
            None => false,
        };
        let is_cosigner = count_signer(&r.cosigners, x) > 0;
        assert(is_author == signs_as_author(*r, x));
        if is_author || is_cosigner {
            let d = &dossiers[r.index];
            let item = DeputyPplItemSummary {
                ppl_id: d.id.clone(),
                number: crate::text::clone_opt(&d.numero),
                legislature: legislature_of(d),
                title: normalize_whitespace(d.titre.as_str()),
                deposit_date: match &d.date_depot {
                    Some(day) => Some(day.to_text()),
                    None => None,
                },
                source_url: crate::text::clone_opt(&d.source_url),
                is_author,
                is_cosigner,
            };
            items.push(item);
            proof {
                let more = signed_positions(resolved@.take(p + 1), x);
                assert(more == pos.push(p as int));
                assert forall|k: int| 0 <= k < items@.len() implies is_deputy_item(
                    #[trigger] items@[k],
                    x,
                    resolved@[more[k]],
                    dossiers@,
                ) by {
                    if k < before.len() {
                        assert(items@[k] == before[k]);
                        assert(more[k] == pos[k]);
                    } else {
                        assert(more[k] == p);
                        assert(items@[k] == item);
                    }
                }
            }
        } else {
            assert(signed_positions(resolved@.take(p + 1), x) == pos);
        }
        p += 1;
    }
    assert(resolved@.take(resolved@.len() as int) == resolved@);
    items
}

/// The order of the items of the shard of a representative: by date of
/// deposit, the latest first and the undated last; then the bills
/// authored; then by title.
pub open spec fn deputy_item_leq(a: DeputyPplItemSummary, b: DeputyPplItemSummary) -> bool {
    let da = opt_text(a.deposit_date);
    let db = opt_text(b.deposit_date);
    crate::text::opt_lex_lt(db, da) || (da == db && ((a.is_author && !b.is_author) || (a.is_author
        == b.is_author && crate::text::lex_le(lowercase_of(a.title@), lowercase_of(b.title@)))))
}

pub open spec fn deputy_item_order() -> spec_fn(DeputyPplItemSummary, DeputyPplItemSummary) -> bool {
    |a: DeputyPplItemSummary, b: DeputyPplItemSummary| deputy_item_leq(a, b)
}

proof fn lemma_deputy_item_order()
    ensures
        crate::sorting::total_preorder(deputy_item_order()),
{
    crate::text::lemma_opt_lex_order();
    crate::text::lemma_lex_le_order();
    let leq = deputy_item_order();
    assert forall|a: DeputyPplItemSummary, b: DeputyPplItemSummary| #[trigger]
        leq(a, b) || #[trigger] leq(b, a) by {
        let da = opt_text(a.deposit_date);
        let db = opt_text(b.deposit_date);
        assert(crate::text::opt_lex_lt(da, db) || da == db || crate::text::opt_lex_lt(db, da));
        assert(crate::text::lex_le(lowercase_of(a.title@), lowercase_of(b.title@))
            || crate::text::lex_le(lowercase_of(b.title@), lowercase_of(a.title@)));
    }
    assert forall|a: DeputyPplItemSummary, b: DeputyPplItemSummary, c: DeputyPplItemSummary| #[trigger]
        leq(a, b) && #[trigger] leq(b, c) implies leq(a, c) by {
        let da = opt_text(a.deposit_date);
        let db = opt_text(b.deposit_date);
        let dc = opt_text(c.deposit_date);
        if crate::text::opt_lex_lt(db, da) && crate::text::opt_lex_lt(dc, db) {
            assert(crate::text::opt_lex_lt(dc, da));
        } else if da == db && db == dc {
            if a.is_author == b.is_author && b.is_author == c.is_author {
                assert(crate::text::lex_le(lowercase_of(a.title@), lowercase_of(b.title@))
                    && crate::text::lex_le(lowercase_of(b.title@), lowercase_of(c.title@)));
            }
        }
    }
}

fn deputy_item_not_after(a: &DeputyPplItemSummary, b: &DeputyPplItemSummary) -> (r: bool)
    ensures
        r == deputy_item_leq(*a, *b),
{
    proof {
        crate::text::lemma_opt_lex_order();
        let da = opt_text(a.deposit_date);
        let db = opt_text(b.deposit_date);
        assert(crate::text::opt_lex_lt(da, db) || da == db || crate::text::opt_lex_lt(db, da));
        assert(!(crate::text::opt_lex_lt(da, db) && crate::text::opt_lex_lt(db, da)));
        assert(!crate::text::opt_lex_lt(da, da));
    }
    if crate::text::opt_str_lt(&b.deposit_date, &a.deposit_date) {
        true
    } else if crate::text::opt_str_lt(&a.deposit_date, &b.deposit_date) {
        false
    } else if a.is_author != b.is_author {
        a.is_author
    } else {
        lowercase_not_after(a.title.as_str(), b.title.as_str())
    }
}

pub open spec fn authored() -> spec_fn(DeputyPplItemSummary) -> bool {
    |item: DeputyPplItemSummary| item.is_author
}

pub open spec fn cosigned_only() -> spec_fn(DeputyPplItemSummary) -> bool {
    |item: DeputyPplItemSummary| !item.is_author && item.is_cosigner
}

/// The shard is that of the representative at position `x`: the bills they
/// signed, sorted, under their id, name and group.
pub open spec fn is_deputy_shard(
    shard: DeputyPplShard,
    x: usize,
    generated_at: Seq<char>,
    resolved: Seq<ResolvedDossier>,
    deputes: Seq<Depute>,
    dossiers: Seq<Dossier>,
) -> bool {
    let d = deputes[x as int];
    &&& x < deputes.len()
    &&& shard.version == 1
    &&& shard.generated_at@ == generated_at
    &&& shard.deputy_id@ == d.id@
    &&& shard.deputy_name@ == full_name_of(d)
    &&& opt_text(shard.group_id) == if has_group(d) {
        Some(group_id_of(d))
    } else {
        None
    }
    &&& opt_text(shard.group_label) == if has_group(d) {
        Some(group_label_of(d))
    } else {
        None
    }
    &&& shard.total_entries == shard.items@.len()
    &&& shard.authored_count == crate::counting::count_if(shard.items@, authored())
    &&& shard.cosigned_only_count == crate::counting::count_if(shard.items@, cosigned_only())
    &&& exists|unsorted: Seq<DeputyPplItemSummary>| #[trigger]
        are_deputy_items(unsorted, x, resolved, dossiers)
            && crate::sorting::is_sorted_rearrangement(shard.items@, unsorted, deputy_item_order())
}

/// The shard of the representative at position `x`.
pub(crate) fn deputy_shard(
    x: usize,
    generated_at: &str,
    resolved: &Vec<ResolvedDossier>,
    deputes: &Vec<Depute>,
    dossiers: &Vec<Dossier>,
) -> (shard: DeputyPplShard)
    requires
        x < deputes@.len(),
        forall|p: int| 0 <= p < resolved@.len() ==> (#[trigger] resolved@[p]).index < dossiers@.len(),
    ensures
        is_deputy_shard(shard, x, generated_at@, resolved@, deputes@, dossiers@),
{
    let d = &deputes[x];
    let mut items = deputy_items(x, resolved, dossiers);
    let ghost unsorted = items@;
    proof {
        lemma_deputy_item_order();
    }
    let le = |a: &DeputyPplItemSummary, b: &DeputyPplItemSummary| -> (r: bool)
        ensures
            r == deputy_item_leq(*a, *b),
        { deputy_item_not_after(a, b) };
    crate::sorting::sort_by(&mut items, le, Ghost(deputy_item_order()));
    proof {
        assert(are_deputy_items(unsorted, x, resolved@, dossiers@)
            && crate::sorting::is_sorted_rearrangement(items@, unsorted, deputy_item_order()));
    }
    let mut authored_count: usize = 0;
    let mut cosigned_only_count: usize = 0;
    let mut i: usize = 0;
    while i < items.len()
        invariant
            i <= items@.len(),
            authored_count == crate::counting::count_if(items@.take(i as int), authored()),
            cosigned_only_count == crate::counting::count_if(items@.take(i as int), cosigned_only()),
            authored_count <= i,
            cosigned_only_count <= i,
        decreases items@.len() - i,
    {
        proof {
            crate::counting::lemma_count_step(items@, i as int, authored());
            crate::counting::lemma_count_step(items@, i as int, cosigned_only());
        }
        if items[i].is_author {
            authored_count += 1;
        } else if items[i].is_cosigner {
            cosigned_only_count += 1;
        }
        i += 1;
    }
    assert(items@.take(items@.len() as int) == items@);
    let grouped = declares_group(d);
    DeputyPplShard {
        version: 1,
        generated_at: generated_at.to_string(),
        deputy_id: d.id.clone(),
        deputy_name: full_name(d),
        group_id: if grouped {
            Some(group_id_text(d))
        } else {
            None
        },
        group_label: if grouped {
            Some(group_label_text(d))
        } else {
            None
        },
        total_entries: items.len(),
        authored_count,
        cosigned_only_count,
        items,
    }
}

/// Some signer of the list resolves to the representative at position `x`.
pub open spec fn signs_somewhere(signers: Seq<ResolvedSigner>, x: usize) -> bool {
    exists|k: int| 0 <= k < signers.len() && (#[trigger] signers[k]).deputy == Some(x)
}

/// The list holds the positions of the representatives that signers
/// resolve to, each once.
pub open spec fn are_signing(list: Seq<usize>, signers: Seq<ResolvedSigner>, n: nat) -> bool {
    &&& list.no_duplicates()
    &&& forall|k: int|
        0 <= k < list.len() ==> (#[trigger] list[k]) < n && signs_somewhere(signers, list[k])
    &&& forall|x: usize| #[trigger] signs_somewhere(signers, x) ==> list.contains(x)
}

proof fn lemma_signs_somewhere_push(signers: Seq<ResolvedSigner>, s: ResolvedSigner, x: usize)
    ensures
        signs_somewhere(signers.push(s), x) <==> signs_somewhere(signers, x) || s.deputy == Some(x),
{
    let more = signers.push(s);
    if signs_somewhere(signers, x) {
        let k = choose|k: int| 0 <= k < signers.len() && (#[trigger] signers[k]).deputy == Some(x);
        assert(more[k].deputy == Some(x));
    }
    if s.deputy == Some(x) {
        assert(more[signers.len() as int].deputy == Some(x));
    }
    if signs_somewhere(more, x) {
        let k = choose|k: int| 0 <= k < more.len() && (#[trigger] more[k]).deputy == Some(x);
        if k < signers.len() {
            assert(signers[k].deputy == Some(x));
        }
    }
}

fn list_has(list: &Vec<usize>, x: usize) -> (r: bool)
    ensures
        r == list@.contains(x),
{
    let mut k: usize = 0;
    while k < list.len()
        invariant
            k <= list@.len(),
            forall|j: int| 0 <= j < k ==> list@[j] != x,
        decreases list@.len() - k,
    {
        if list[k] == x {
            return true;
        }
        k += 1;
    }
    false
}

fn note_deputy(list: &mut Vec<usize>, s: &ResolvedSigner, Ghost(seen): Ghost<Seq<ResolvedSigner>>, Ghost(n): Ghost<nat>)
    requires
        are_signing(old(list)@, seen, n),
        s.deputy matches Some(i) ==> i < n,
    ensures
        are_signing(final(list)@, seen.push(*s), n),
{
    let ghost before = list@;
    let ghost more = seen.push(*s);
    proof {
        assert forall|x: usize|
            signs_somewhere(more, x) <==> signs_somewhere(seen, x) || s.deputy == Some(x) by {
            lemma_signs_somewhere_push(seen, *s, x);
        }
    }
    match s.deputy {
        Some(i) => {
            if !list_has(list, i) {
                list.push(i);
                proof {
                    assert forall|k: int| 0 <= k < before.len() implies list@[k] == before[k] by {}
                    assert forall|x: usize| #[trigger] signs_somewhere(more, x) implies list@.contains(
                        x,
                    ) by {
                        if signs_somewhere(seen, x) {
                            let k = choose|k: int| 0 <= k < before.len() && before[k] == x;
                            assert(list@[k] == x);
                        } else {
                            assert(list@[before.len() as int] == x);
                        }
                    }
                }
            }
        },
        None => {},
    }
}

/// The representatives that the signers of the bills resolve to.
pub(crate) fn collect_signing_deputies(
    resolved: &Vec<ResolvedDossier>,
    Ghost(deputes): Ghost<Seq<Depute>>,
    Ghost(dossiers): Ghost<Seq<Dossier>>,
) -> (list: Vec<usize>)
    requires
        all_resolved(resolved@, deputes, dossiers),
    ensures
        are_signing(list@, all_signers(resolved@), deputes.len()),
{
    let mut list: Vec<usize> = Vec::new();
    let ghost mut seen: Seq<ResolvedSigner> = Seq::empty();
    let ghost n = deputes.len();
    let mut p: usize = 0;
    assert(all_signers(resolved@.take(0)) == Seq::<ResolvedSigner>::empty());
    while p < resolved.len()
        invariant
            p <= resolved@.len(),
            n == deputes.len(),
            all_resolved(resolved@, deputes, dossiers),
            seen == all_signers(resolved@.take(p as int)),
            are_signing(list@, seen, n),
        decreases resolved@.len() - p,
    {
        let r = &resolved[p];
        let ghost start = seen;
        proof {
            assert(resolved@.take(p + 1).drop_last() == resolved@.take(p as int));
            assert(resolved@.take(p + 1).last() == *r);
            assert(r.is_resolution_of(deputes, dossiers));
        }
        match &r.author {
            Some(a) => {
                note_deputy(&mut list, a, Ghost(seen), Ghost(n));
                proof {
                    seen = seen.push(*a);
                }
            },
            None => {},
        }
        let ghost after_author = seen;
        let mut k: usize = 0;
        assert(r.cosigners@.take(0) == Seq::<ResolvedSigner>::empty());
        assert(after_author + Seq::<ResolvedSigner>::empty() == after_author);
        while k < r.cosigners.len()
            invariant
                k <= r.cosigners@.len(),
                n == deputes.len(),
                r.is_resolution_of(deputes, dossiers),
                seen == after_author + r.cosigners@.take(k as int),
                are_signing(list@, seen, n),
            decreases r.cosigners@.len() - k,
        {
            proof {
                let keys = cosigner_keys(
                    opt_text(dossiers[r.index as int].auteur_id),
                    dossiers[r.index as int].cosignataires_ids@,
                );
                assert(r.cosigners@[k as int].is_signer(deputes, keys[k as int]));
            }
            note_deputy(&mut list, &r.cosigners[k], Ghost(seen), Ghost(n));
            proof {
                assert(r.cosigners@.take(k + 1) == r.cosigners@.take(k as int).push(
                    r.cosigners@[k as int],
                ));
                assert((after_author + r.cosigners@.take(k as int)).push(r.cosigners@[k as int])
                    == after_author + r.cosigners@.take(k + 1));
                seen = seen.push(r.cosigners@[k as int]);
            }
            k += 1;
        }
        proof {
            assert(r.cosigners@.take(r.cosigners@.len() as int) == r.cosigners@);
            if r.author is Some {
                let ghost a = r.author->0;
                assert(start.push(a) + r.cosigners@ == start + (seq![a] + r.cosigners@));
            }
            assert(seen == start + signers_of(*r));
        }
        p += 1;
    }
    assert(resolved@.take(resolved@.len() as int) == resolved@);
    list
}

/// The shard of a representative with the stem of the file that holds it.
#[derive(Debug, Clone)]
pub struct DeputyPplFile {
    pub stem: String,
    pub shard: DeputyPplShard,
}

pub open spec fn deputy_file_leq(a: DeputyPplFile, b: DeputyPplFile) -> bool {
    name_id_leq((a.shard.deputy_name@, a.shard.deputy_id@), (b.shard.deputy_name@, b.shard.deputy_id@))
}

pub open spec fn deputy_file_order() -> spec_fn(DeputyPplFile, DeputyPplFile) -> bool {
    |a: DeputyPplFile, b: DeputyPplFile| deputy_file_leq(a, b)
}

proof fn lemma_deputy_file_order()
    ensures
        crate::sorting::total_preorder(deputy_file_order()),
{
    let leq = deputy_file_order();
    assert forall|a: DeputyPplFile, b: DeputyPplFile| #[trigger] leq(a, b) || #[trigger] leq(
        b,
        a,
    ) by {
        lemma_name_id_order(
            (a.shard.deputy_name@, a.shard.deputy_id@),
            (b.shard.deputy_name@, b.shard.deputy_id@),
            (a.shard.deputy_name@, a.shard.deputy_id@),
        );
    }
    assert forall|a: DeputyPplFile, b: DeputyPplFile, c: DeputyPplFile| #[trigger]
        leq(a, b) && #[trigger] leq(b, c) implies leq(a, c) by {
        lemma_name_id_order(
            (a.shard.deputy_name@, a.shard.deputy_id@),
            (b.shard.deputy_name@, b.shard.deputy_id@),
            (c.shard.deputy_name@, c.shard.deputy_id@),
        );
    }
}

/// The file is that of the shard of the representative at position `x`.
pub open spec fn is_deputy_file(
    f: DeputyPplFile,
    x: usize,
    generated_at: Seq<char>,
    resolved: Seq<ResolvedDossier>,
    deputes: Seq<Depute>,
    dossiers: Seq<Dossier>,
) -> bool {
    &&& is_deputy_shard(f.shard, x, generated_at, resolved, deputes, dossiers)
    &&& f.stem@ == shard_stem(f.shard.deputy_id@)
    &&& signs_somewhere(all_signers(resolved), x)
}

/// The file is that of the shard of a representative that a signer
/// resolves to.
pub open spec fn is_file_of_signer(
    f: DeputyPplFile,
    generated_at: Seq<char>,
    resolved: Seq<ResolvedDossier>,
    deputes: Seq<Depute>,
    dossiers: Seq<Dossier>,
) -> bool {
    exists|x: usize| #[trigger] is_deputy_file(f, x, generated_at, resolved, deputes, dossiers)
}

/// The files are those of the representatives that signers resolve to:
/// one for each, sorted by name and id.
pub open spec fn are_deputy_files(
    files: Seq<DeputyPplFile>,
    generated_at: Seq<char>,
    resolved: Seq<ResolvedDossier>,
    deputes: Seq<Depute>,
    dossiers: Seq<Dossier>,
) -> bool {
    &&& forall|k: int|
        0 <= k < files.len() ==> is_file_of_signer(
            #[trigger] files[k],
            generated_at,
            resolved,
            deputes,
            dossiers,
        )
    &&& forall|x: usize| #[trigger]
        signs_somewhere(all_signers(resolved), x) ==> exists|k: int|
            0 <= k < files.len() && is_deputy_file(
                #[trigger] files[k],
                x,
                generated_at,
                resolved,
                deputes,
                dossiers,
            )
    &&& vstd::relations::sorted_by(files, deputy_file_order())
}

/// The shards of all representatives that signed a retained bill.
pub(crate) fn deputy_files(
    generated_at: &str,
    resolved: &Vec<ResolvedDossier>,
    deputes: &Vec<Depute>,
    dossiers: &Vec<Dossier>,
) -> (files: Vec<DeputyPplFile>)
    requires
        all_resolved(resolved@, deputes@, dossiers@),
    ensures
        are_deputy_files(files@, generated_at@, resolved@, deputes@, dossiers@),
{
    let list = collect_signing_deputies(resolved, Ghost(deputes@), Ghost(dossiers@));
    let ghost signers = all_signers(resolved@);
    let mut files: Vec<DeputyPplFile> = Vec::new();
    let mut k: usize = 0;
    while k < list.len()
        invariant
            k <= list@.len(),
            all_resolved(resolved@, deputes@, dossiers@),
            signers == all_signers(resolved@),
            are_signing(list@, signers, deputes@.len()),
            files@.len() == k,
            forall|j: int|
                0 <= j < k ==> is_deputy_file(
                    #[trigger] files@[j],
                    list@[j],
                    generated_at@,
                    resolved@,
                    deputes@,
                    dossiers@,
                ),
        decreases list@.len() - k,
    {
        let x = list[k];
        let ghost before = files@;
        let shard = deputy_shard(x, generated_at, resolved, deputes, dossiers);
        let stem = safe_file_stem(shard.deputy_id.as_str());
        files.push(DeputyPplFile { stem, shard });
        proof {
            assert forall|j: int| 0 <= j < k + 1 implies is_deputy_file(
                #[trigger] files@[j],
                list@[j],
                generated_at@,
                resolved@,
                deputes@,
                dossiers@,
            ) by {
                if j < k {
                    assert(files@[j] == before[j]);
                }
            }
        }
        k += 1;
    }
    let ghost unsorted = files@;
    proof {
        lemma_deputy_file_order();
    }
    let le = |a: &DeputyPplFile, b: &DeputyPplFile| -> (r: bool)
        ensures
            r == deputy_file_leq(*a, *b),
        {
            name_id_not_after(
                a.shard.deputy_name.as_str(),
                a.shard.deputy_id.as_str(),
                b.shard.deputy_name.as_str(),
                b.shard.deputy_id.as_str(),
            )
        };
    crate::sorting::sort_by(&mut files, le, Ghost(deputy_file_order()));
    proof {
        let sorted = files@;
        crate::sorting::lemma_rearranged(unsorted, sorted);
        assert forall|j: int| 0 <= j < sorted.len() implies is_file_of_signer(
            #[trigger] sorted[j],
            generated_at@,
            resolved@,
            deputes@,
            dossiers@,
        ) by {
            assert(unsorted.contains(sorted[j]));
            let u = choose|u: int| 0 <= u < unsorted.len() && unsorted[u] == sorted[j];
            assert(is_deputy_file(sorted[j], list@[u], generated_at@, resolved@, deputes@, dossiers@));
        }
        assert forall|x: usize| #[trigger] signs_somewhere(signers, x) implies exists|j: int|
            0 <= j < sorted.len() && is_deputy_file(
                #[trigger] sorted[j],
                x,
                generated_at@,
                resolved@,
                deputes@,
                dossiers@,
            ) by {
            assert(list@.contains(x));
            let u = choose|u: int| 0 <= u < list@.len() && list@[u] == x;
            assert(is_deputy_file(unsorted[u], x, generated_at@, resolved@, deputes@, dossiers@));
            assert(sorted.contains(unsorted[u]));
            let j = choose|j: int| 0 <= j < sorted.len() && sorted[j] == unsorted[u];
            assert(is_deputy_file(sorted[j], x, generated_at@, resolved@, deputes@, dossiers@));
        }
    }
    files
}

/// How many signers without a group the audit sample keeps.
pub const UNRESOLVED_SAMPLE_LIMIT: usize = 200;

/// A signer that resolved to no group, as the audit sample shows it.
#[derive(Debug, Clone)]
pub struct GroupPplUnresolvedSignerSample {
    pub dossier_id: String,
    pub legislature: Option<String>,
    pub deposit_date: Option<String>,
    pub signer_role: String,
    pub signer_id: String,
    pub cause: String,
    pub titre: String,
}

/// A signer of a bill that resolves to no group: the position of the bill,
/// whether the signer is its author, and the signer.
pub struct UnresolvedRef {
    pub pos: int,
    pub as_author: bool,
    pub signer: ResolvedSigner,
}

pub open spec fn is_unresolved(s: ResolvedSigner) -> bool {
    s.resolution != Resolution::Group
}

/// The signers without a group among the co-signers of the bill at
/// position `pos`, in order.
pub open spec fn unresolved_cosigners(cosigners: Seq<ResolvedSigner>, pos: int) -> Seq<UnresolvedRef>
    decreases cosigners.len(),
{
    if cosigners.len() == 0 {
        Seq::empty()
    } else {
        let head = unresolved_cosigners(cosigners.drop_last(), pos);
        if is_unresolved(cosigners.last()) {
            head.push(UnresolvedRef { pos, as_author: false, signer: cosigners.last() })
        } else {
            head
        }
    }
}

/// The signers without a group of the bill at position `pos`: the author
/// first.
pub open spec fn unresolved_of(r: ResolvedDossier, pos: int) -> Seq<UnresolvedRef> {
    match r.author {
        Some(a) => if is_unresolved(a) {
            seq![UnresolvedRef { pos, as_author: true, signer: a }] + unresolved_cosigners(
                r.cosigners@,
                pos,
            )
        } else {
            unresolved_cosigners(r.cosigners@, pos)
        },
        None => unresolved_cosigners(r.cosigners@, pos),
    }
}

/// The signers without a group of all bills, in the order in which they
/// count.
pub open spec fn unresolved_list(resolved: Seq<ResolvedDossier>) -> Seq<UnresolvedRef>
    decreases resolved.len(),
{
    if resolved.len() == 0 {
        Seq::empty()
    } else {
        unresolved_list(resolved.drop_last()) + unresolved_of(
            resolved.last(),
            resolved.len() - 1,
        )
    }
}

/// The sample shows the signer.
pub open spec fn sample_shows(
    sample: GroupPplUnresolvedSignerSample,
    u: UnresolvedRef,
    resolved: Seq<ResolvedDossier>,
    dossiers: Seq<Dossier>,
) -> bool {
    let d = dossiers[resolved[u.pos].index as int];
    &&& sample.dossier_id@ == d.id@
    &&& opt_text(sample.legislature) == opt_text(d.legislature)
    &&& opt_text(sample.deposit_date) == match d.date_depot {
        Some(day) => Some(crate::dates::date_text(day.day())),
        None => None,
    }
    &&& sample.signer_role@ == if u.as_author {
        "author"@
    } else {
        "cosigner"@
    }
    &&& sample.signer_id@ == if u.as_author {
        trim(u.signer.signer_id@)
    } else {
        u.signer.signer_id@
    }
    &&& sample.cause@ == if u.signer.resolution == Resolution::DeputyWithoutGroup {
        "deputy_without_group"@
    } else {
        "deputy_not_found"@
    }
    &&& sample.titre@ == d.titre@
}

/// The samples show the first signers without a group, up to the limit.
pub open spec fn are_samples(
    samples: Seq<GroupPplUnresolvedSignerSample>,
    list: Seq<UnresolvedRef>,
    resolved: Seq<ResolvedDossier>,
    dossiers: Seq<Dossier>,
) -> bool {
    &&& samples.len() == if list.len() > UNRESOLVED_SAMPLE_LIMIT {
        UNRESOLVED_SAMPLE_LIMIT as nat
    } else {
        list.len()
    }
    &&& forall|k: int|
        0 <= k < samples.len() ==> sample_shows(#[trigger] samples[k], list[k], resolved, dossiers)
}

fn note_unresolved(
    samples: &mut Vec<GroupPplUnresolvedSignerSample>,
    s: &ResolvedSigner,
    as_author: bool,
    pos: usize,
    resolved: &Vec<ResolvedDossier>,
    dossiers: &Vec<Dossier>,
    Ghost(list): Ghost<Seq<UnresolvedRef>>,
)
    requires
        pos < resolved@.len(),
        resolved@[pos as int].index < dossiers@.len(),
        is_unresolved(*s),
        are_samples(old(samples)@, list, resolved@, dossiers@),
    ensures
        are_samples(
            final(samples)@,
            list.push(UnresolvedRef { pos: pos as int, as_author, signer: *s }),
            resolved@,
            dossiers@,
        ),
{
    if samples.len() >= UNRESOLVED_SAMPLE_LIMIT {
        return ;
    }
    let d = &dossiers[resolved[pos].index];
    let ghost before = samples@;
    let sample = GroupPplUnresolvedSignerSample {
        dossier_id: d.id.clone(),
        legislature: crate::text::clone_opt(&d.legislature),
        deposit_date: match &d.date_depot {
            Some(day) => Some(day.to_text()),
            None => None,
        },
        signer_role: if as_author {
            "author".to_string()
        } else {
            "cosigner".to_string()
        },
        signer_id: if as_author {
            text_of(&chars_trim(&chars_of(s.signer_id.as_str())))
        } else {
            s.signer_id.clone()
        },
        cause: match s.resolution {
            Resolution::DeputyWithoutGroup => "deputy_without_group".to_string(),
            _ => "deputy_not_found".to_string(),
        },
        titre: d.titre.clone(),
    };
    samples.push(sample);
    proof {
        let more = list.push(UnresolvedRef { pos: pos as int, as_author, signer: *s });
        assert forall|k: int| 0 <= k < samples@.len() implies sample_shows(
            #[trigger] samples@[k],
            more[k],
            resolved@,
            dossiers@,
        ) by {
            if k < before.len() {
                assert(samples@[k] == before[k]);
                assert(more[k] == list[k]);
            }
        }
    }
}

/// The audit sample of the signers that resolved to no group.
pub(crate) fn unresolved_samples(resolved: &Vec<ResolvedDossier>, dossiers: &Vec<Dossier>) -> (samples: Vec<
    GroupPplUnresolvedSignerSample,
>)
    requires
        forall|p: int| 0 <= p < resolved@.len() ==> (#[trigger] resolved@[p]).index < dossiers@.len(),
    ensures
        are_samples(samples@, unresolved_list(resolved@), resolved@, dossiers@),
        samples@.len() <= UNRESOLVED_SAMPLE_LIMIT,
{
    let mut samples: Vec<GroupPplUnresolvedSignerSample> = Vec::new();
    let ghost mut list: Seq<UnresolvedRef> = Seq::empty();
    let mut p: usize = 0;
    assert(unresolved_list(resolved@.take(0)) == Seq::<UnresolvedRef>::empty());
    while p < resolved.len()
        invariant
            p <= resolved@.len(),
            forall|q: int|
                0 <= q < resolved@.len() ==> (#[trigger] resolved@[q]).index < dossiers@.len(),
            list == unresolved_list(resolved@.take(p as int)),
            are_samples(samples@, list, resolved@, dossiers@),
        decreases resolved@.len() - p,
    {
        let r = &resolved[p];
        let ghost start = list;
        proof {
            assert(resolved@.take(p + 1).drop_last() == resolved@.take(p as int));
            assert(resolved@.take(p + 1).last() == *r);
            assert(resolved@.take(p + 1).len() - 1 == p);
        }
        match &r.author {
            Some(a) => {
                if a.resolution != Resolution::Group {
                    note_unresolved(&mut samples, a, true, p, resolved, dossiers, Ghost(list));
                    proof {
                        list = list.push(UnresolvedRef { pos: p as int, as_author: true, signer: *a });
                    }
                }
            },
            None => {},
        }
        let ghost after_author = list;
        let mut k: usize = 0;
        assert(r.cosigners@.take(0) == Seq::<ResolvedSigner>::empty());
        assert(after_author + Seq::<UnresolvedRef>::empty() == after_author);
        while k < r.cosigners.len()
            invariant
                k <= r.cosigners@.len(),
                p < resolved@.len(),
                *r == resolved@[p as int],
                forall|q: int|
                    0 <= q < resolved@.len() ==> (#[trigger] resolved@[q]).index < dossiers@.len(),
                list == after_author + unresolved_cosigners(r.cosigners@.take(k as int), p as int),
                are_samples(samples@, list, resolved@, dossiers@),
            decreases r.cosigners@.len() - k,
        {
            let s = &r.cosigners[k];
            proof {
                assert(r.cosigners@.take(k + 1).drop_last() == r.cosigners@.take(k as int));
                assert(r.cosigners@.take(k + 1).last() == *s);
            }
            if s.resolution != Resolution::Group {
                note_unresolved(&mut samples, s, false, p, resolved, dossiers, Ghost(list));
                proof {
                    let u = UnresolvedRef { pos: p as int, as_author: false, signer: *s };
                    assert((after_author + unresolved_cosigners(
                        r.cosigners@.take(k as int),
                        p as int,
                    )).push(u) == after_author + unresolved_cosigners(
                        r.cosigners@.take(k as int),
                        p as int,
                    ).push(u));
                    list = list.push(u);
                }
            }
            k += 1;
        }
        proof {
            assert(r.cosigners@.take(r.cosigners@.len() as int) == r.cosigners@);
            let tail = unresolved_cosigners(r.cosigners@, p as int);
            if r.author is Some && is_unresolved(r.author->0) {
                let u = UnresolvedRef { pos: p as int, as_author: true, signer: r.author->0 };
                assert(start.push(u) + tail == start + (seq![u] + tail));
            }
            assert(list == start + unresolved_of(*r, p as int));
        }
        p += 1;
    }
    assert(resolved@.take(resolved@.len() as int) == resolved@);
    samples
}

/// How many signers of a legislature resolved to no group.
#[derive(Debug, Clone)]
pub struct LegislatureCount {
    pub legislature: String,
    pub count: usize,
}

/// The figures of a run of the linkage, for the operator.
#[derive(Debug, Clone)]
pub struct GroupPplDebugSummary {
    pub version: u8,
    pub generated_at: String,
    pub deputes_total: usize,
    pub deputes_with_group: usize,
    pub deputes_without_group: usize,
    pub dossiers_total: usize,
    pub ppl_detected: usize,
    pub ppl_origin_assemblee: usize,
    pub ppl_origin_senat: usize,
    pub ppl_origin_unknown: usize,
    pub ppl_skipped_non_assemblee: usize,
    pub ppl_with_signers: usize,
    pub unique_ppl_retained: usize,
    pub total_author_signers_seen: usize,
    pub total_cosigners_seen: usize,
    pub signers_resolved_to_group: usize,
    pub signers_unresolved_deputy_not_found: usize,
    pub signers_unresolved_deputy_without_group: usize,
    pub unknown_bucket_ppl_entries: usize,
    pub unknown_bucket_authored_entries: usize,
    pub unknown_bucket_signers_seen: usize,
    pub unresolved_by_legislature: Vec<LegislatureCount>,
}

pub open spec fn with_group() -> spec_fn(Depute) -> bool {
    |d: Depute| has_group(d)
}

pub open spec fn is_ppl() -> spec_fn(Dossier) -> bool {
    |d: Dossier| proposition_de_loi(d)
}

pub open spec fn ppl_of_assembly() -> spec_fn(Dossier) -> bool {
    |d: Dossier| proposition_de_loi(d) && from_assembly(d)
}

pub open spec fn ppl_of_senate() -> spec_fn(Dossier) -> bool {
    |d: Dossier| proposition_de_loi(d) && from_senate(d)
}

pub open spec fn with_resolution(res: Resolution) -> spec_fn(ResolvedSigner) -> bool {
    |s: ResolvedSigner| s.resolution == res
}

/// How many signers of the bill resolve in the given way.
pub open spec fn resolved_as(res: Resolution) -> spec_fn(ResolvedDossier) -> nat {
    |r: ResolvedDossier| crate::counting::count_if(signers_of(r), with_resolution(res))
}

pub open spec fn cosigners_of() -> spec_fn(ResolvedDossier) -> nat {
    |r: ResolvedDossier| r.cosigners@.len()
}

pub open spec fn has_author() -> spec_fn(ResolvedDossier) -> bool {
    |r: ResolvedDossier| r.author is Some
}

/// How many signers of the bill resolve to no group.
pub open spec fn unresolved_in(r: ResolvedDossier) -> nat {
    resolved_as(Resolution::DeputyNotFound)(r) + resolved_as(Resolution::DeputyWithoutGroup)(r)
}

/// Which bills a count of different bills looks at.
#[derive(Debug, Clone, Copy, PartialEq, Eq, Structural)]
pub enum Bucket {
    /// Every retained bill.
    Retained,
    /// The bills with a signer that resolves to no group.
    Unknown,
    /// The bills whose author resolves to no group.
    UnknownAuthor,
}

pub open spec fn in_bucket(r: ResolvedDossier, b: Bucket) -> bool {
    match b {
        Bucket::Retained => true,
        Bucket::Unknown => unresolved_in(r) > 0,
        Bucket::UnknownAuthor => r.author matches Some(a) && is_unresolved(a),
    }
}

/// The ids of the bills of a bucket, in order.
pub open spec fn bucket_ids(resolved: Seq<ResolvedDossier>, dossiers: Seq<Dossier>, b: Bucket) -> Seq<
    Seq<char>,
>
    decreases resolved.len(),
{
    if resolved.len() == 0 {
        Seq::empty()
    } else {
        let head = bucket_ids(resolved.drop_last(), dossiers, b);
        if in_bucket(resolved.last(), b) {
            head.push(dossiers[resolved.last().index as int].id@)
        } else {
            head
        }
    }
}

/// The legislature that the signers of a bill are counted under: that of
/// the bill, and `?` where it names none.
pub open spec fn legislature_key(r: ResolvedDossier, dossiers: Seq<Dossier>) -> Seq<char> {
    match dossiers[r.index as int].legislature {
        Some(l) => l@,
        None => "?"@,
    }
}

pub open spec fn unresolved_under(dossiers: Seq<Dossier>, key: Seq<char>) -> spec_fn(
    ResolvedDossier,
) -> nat {
    |r: ResolvedDossier|
        if legislature_key(r, dossiers) == key {
            unresolved_in(r)
        } else {
            0
        }
}

/// How many signers of bills of the legislature resolve to no group.
pub open spec fn legislature_total(
    resolved: Seq<ResolvedDossier>,
    dossiers: Seq<Dossier>,
    key: Seq<char>,
) -> nat {
    crate::counting::sum_of(resolved, unresolved_under(dossiers, key))
}

/// The counts hold one entry for each legislature with a signer that
/// resolves to no group, sorted by legislature.
pub open spec fn are_legislature_counts(
    counts: Seq<LegislatureCount>,
    resolved: Seq<ResolvedDossier>,
    dossiers: Seq<Dossier>,
) -> bool {
    &&& forall|k: int|
        0 <= k < counts.len() ==> (#[trigger] counts[k]).count == capped(
            legislature_total(resolved, dossiers, counts[k].legislature@),
        ) && counts[k].count > 0
    &&& forall|a: int, b: int|
        0 <= a < b < counts.len() ==> crate::text::lex_lt(
            (#[trigger] counts[a]).legislature@,
            (#[trigger] counts[b]).legislature@,
        )
    &&& forall|key: Seq<char>|
        (#[trigger] legislature_total(resolved, dossiers, key)) > 0 ==> exists|k: int|
            0 <= k < counts.len() && (#[trigger] counts[k]).legislature@ == key
}

/// The summary states the figures of the run.
pub open spec fn is_debug_summary(
    s: GroupPplDebugSummary,
    generated_at: Seq<char>,
    resolved: Seq<ResolvedDossier>,
    deputes: Seq<Depute>,
    dossiers: Seq<Dossier>,
) -> bool {
    &&& s.version == 1
    &&& s.generated_at@ == generated_at
    &&& s.deputes_total == deputes.len()
    &&& s.deputes_with_group == crate::counting::count_if(deputes, with_group())
    &&& s.deputes_with_group + s.deputes_without_group == deputes.len()
    &&& s.dossiers_total == dossiers.len()
    &&& s.ppl_detected == crate::counting::count_if(dossiers, is_ppl())
    &&& s.ppl_origin_assemblee == crate::counting::count_if(dossiers, ppl_of_assembly())
    &&& s.ppl_origin_senat == crate::counting::count_if(dossiers, ppl_of_senate())
    &&& s.ppl_origin_assemblee + s.ppl_origin_senat + s.ppl_origin_unknown == s.ppl_detected
    &&& s.ppl_skipped_non_assemblee == s.ppl_origin_senat
    &&& s.ppl_with_signers == resolved.len()
    &&& s.unique_ppl_retained == crate::parser::distinct_texts(
        bucket_ids(resolved, dossiers, Bucket::Retained),
    ).len()
    &&& s.total_author_signers_seen == crate::counting::count_if(resolved, has_author())
    &&& s.total_cosigners_seen == capped(crate::counting::sum_of(resolved, cosigners_of()))
    &&& s.signers_resolved_to_group == capped(
        crate::counting::sum_of(resolved, resolved_as(Resolution::Group)),
    )
    &&& s.signers_unresolved_deputy_not_found == capped(
        crate::counting::sum_of(resolved, resolved_as(Resolution::DeputyNotFound)),
    )
    &&& s.signers_unresolved_deputy_without_group == capped(
        crate::counting::sum_of(resolved, resolved_as(Resolution::DeputyWithoutGroup)),
    )
    &&& s.unknown_bucket_signers_seen == capped(
        crate::counting::sum_of(resolved, resolved_as(Resolution::DeputyNotFound))
            + crate::counting::sum_of(resolved, resolved_as(Resolution::DeputyWithoutGroup)),
    )
    &&& s.unknown_bucket_ppl_entries == crate::parser::distinct_texts(
        bucket_ids(resolved, dossiers, Bucket::Unknown),
    ).len()
    &&& s.unknown_bucket_authored_entries == crate::parser::distinct_texts(
        bucket_ids(resolved, dossiers, Bucket::UnknownAuthor),
    ).len()
    &&& are_legislature_counts(s.unresolved_by_legislature@, resolved, dossiers)
}

/// How many signers of the bill resolve in the given way.
fn count_resolved_as(r: &ResolvedDossier, res: Resolution) -> (n: usize)
    ensures
        n == capped(resolved_as(res)(*r)),
{
    let ghost p = with_resolution(res);
    let mut n: usize = 0;
    let mut i: usize = 0;
    while i < r.cosigners.len()
        invariant
            i <= r.cosigners@.len(),
            p == with_resolution(res),
            n == crate::counting::count_if(r.cosigners@.take(i as int), p),
            n <= i,
        decreases r.cosigners@.len() - i,
    {
        proof {
            crate::counting::lemma_count_step(r.cosigners@, i as int, p);
        }
        if r.cosigners[i].resolution == res {
            n += 1;
        }
        i += 1;
    }
    assert(r.cosigners@.take(r.cosigners@.len() as int) == r.cosigners@);
    match &r.author {
        Some(a) => {
            proof {
                crate::counting::lemma_count_add(seq![*a], r.cosigners@, p);
                crate::counting::lemma_count_one(*a, p);
            }
            if a.resolution == res {
                add_capped(
                    n,
                    1,
                    Ghost(crate::counting::count_if(r.cosigners@, p)),
                    Ghost(1nat),
                )
            } else {
                n
            }
        },
        None => n,
    }
}

fn sum_resolved_as(resolved: &Vec<ResolvedDossier>, res: Resolution) -> (n: usize)
    ensures
        n == capped(crate::counting::sum_of(resolved@, resolved_as(res))),
{
    let ghost f = resolved_as(res);
    let mut n: usize = 0;
    let mut p: usize = 0;
    while p < resolved.len()
        invariant
            p <= resolved@.len(),
            f == resolved_as(res),
            n == capped(crate::counting::sum_of(resolved@.take(p as int), f)),
        decreases resolved@.len() - p,
    {
        proof {
            crate::counting::lemma_sum_step(resolved@, p as int, f);
        }
        let c = count_resolved_as(&resolved[p], res);
        n = add_capped(
            n,
            c,
            Ghost(crate::counting::sum_of(resolved@.take(p as int), f)),
            Ghost(f(resolved@[p as int])),
        );
        p += 1;
    }
    assert(resolved@.take(resolved@.len() as int) == resolved@);
    n
}

fn sum_cosigners(resolved: &Vec<ResolvedDossier>) -> (n: usize)
    ensures
        n == capped(crate::counting::sum_of(resolved@, cosigners_of())),
{
    let ghost f = cosigners_of();
    let mut n: usize = 0;
    let mut p: usize = 0;
    while p < resolved.len()
        invariant
            p <= resolved@.len(),
            f == cosigners_of(),
            n == capped(crate::counting::sum_of(resolved@.take(p as int), f)),
        decreases resolved@.len() - p,
    {
        proof {
            crate::counting::lemma_sum_step(resolved@, p as int, f);
        }
        n = add_capped(
            n,
            resolved[p].cosigners.len(),
            Ghost(crate::counting::sum_of(resolved@.take(p as int), f)),
            Ghost(f(resolved@[p as int])),
        );
        p += 1;
    }
    assert(resolved@.take(resolved@.len() as int) == resolved@);
    n
}

fn count_with_author(resolved: &Vec<ResolvedDossier>) -> (n: usize)
    ensures
        n == crate::counting::count_if(resolved@, has_author()),
{
    let mut n: usize = 0;
    let mut p: usize = 0;
    while p < resolved.len()
        invariant
            p <= resolved@.len(),
            n == crate::counting::count_if(resolved@.take(p as int), has_author()),
            n <= p,
        decreases resolved@.len() - p,
    {
        proof {
            crate::counting::lemma_count_step(resolved@, p as int, has_author());
        }
        if resolved[p].author.is_some() {
            n += 1;
        }
        p += 1;
    }
    assert(resolved@.take(resolved@.len() as int) == resolved@);
    n
}

fn is_in_bucket(r: &ResolvedDossier, b: Bucket) -> (res: bool)
    ensures
        res == in_bucket(*r, b),
{
    match b {
        Bucket::Retained => true,
        Bucket::Unknown => count_resolved_as(r, Resolution::DeputyNotFound) > 0
            || count_resolved_as(r, Resolution::DeputyWithoutGroup) > 0,
        Bucket::UnknownAuthor => match &r.author {
            Some(a) => a.resolution != Resolution::Group,
            None => false,
        },
    }
}

/// How many different bills a bucket holds.
fn count_bucket(resolved: &Vec<ResolvedDossier>, dossiers: &Vec<Dossier>, b: Bucket) -> (n: usize)
    requires
        forall|p: int| 0 <= p < resolved@.len() ==> (#[trigger] resolved@[p]).index < dossiers@.len(),
    ensures
        n == crate::parser::distinct_texts(bucket_ids(resolved@, dossiers@, b)).len(),
{
    let mut ids: Vec<String> = Vec::new();
    let mut p: usize = 0;
    assert(crate::parser::texts(ids@) =~= bucket_ids(resolved@.take(0), dossiers@, b));
    while p < resolved.len()
        invariant
            p <= resolved@.len(),
            forall|q: int|
                0 <= q < resolved@.len() ==> (#[trigger] resolved@[q]).index < dossiers@.len(),
            crate::parser::texts(ids@) == bucket_ids(resolved@.take(p as int), dossiers@, b),
        decreases resolved@.len() - p,
    {
        let ghost before = ids@;
        proof {
            assert(resolved@.take(p + 1).drop_last() == resolved@.take(p as int));
            assert(resolved@.take(p + 1).last() == resolved@[p as int]);
        }
        if is_in_bucket(&resolved[p], b) {
            ids.push(dossiers[resolved[p].index].id.clone());
            proof {
                assert(crate::parser::texts(ids@) =~= crate::parser::texts(before).push(
                    dossiers@[resolved@[p as int].index as int].id@,
                ));
            }
        }
        p += 1;
    }
    assert(resolved@.take(resolved@.len() as int) == resolved@);
    crate::parser::count_distinct(&ids)
}

fn legislature_text(r: &ResolvedDossier, dossiers: &Vec<Dossier>) -> (key: String)
    requires
        r.index < dossiers@.len(),
    ensures
        key@ == legislature_key(*r, dossiers@),
{
    match &dossiers[r.index].legislature {
        Some(l) => l.clone(),
        None => "?".to_string(),
    }
}

fn count_unresolved(r: &ResolvedDossier) -> (n: usize)
    ensures
        n == capped(unresolved_in(*r)),
{
    let a = count_resolved_as(r, Resolution::DeputyNotFound);
    let b = count_resolved_as(r, Resolution::DeputyWithoutGroup);
    add_capped(
        a,
        b,
        Ghost(resolved_as(Resolution::DeputyNotFound)(*r)),
        Ghost(resolved_as(Resolution::DeputyWithoutGroup)(*r)),
    )
}

fn legislature_sum(resolved: &Vec<ResolvedDossier>, dossiers: &Vec<Dossier>, key: &String) -> (n:
    usize)
    requires
        forall|p: int| 0 <= p < resolved@.len() ==> (#[trigger] resolved@[p]).index < dossiers@.len(),
    ensures
        n == capped(legislature_total(resolved@, dossiers@, key@)),
{
    let ghost f = unresolved_under(dossiers@, key@);
    let mut n: usize = 0;
    let mut p: usize = 0;
    while p < resolved.len()
        invariant
            p <= resolved@.len(),
            forall|q: int|
                0 <= q < resolved@.len() ==> (#[trigger] resolved@[q]).index < dossiers@.len(),
            f == unresolved_under(dossiers@, key@),
            n == capped(crate::counting::sum_of(resolved@.take(p as int), f)),
        decreases resolved@.len() - p,
    {
        proof {
            crate::counting::lemma_sum_step(resolved@, p as int, f);
        }
        let r = &resolved[p];
        if legislature_text(r, dossiers) == *key {
            n = add_capped(
                n,
                count_unresolved(r),
                Ghost(crate::counting::sum_of(resolved@.take(p as int), f)),
                Ghost(unresolved_in(*r)),
            );
        }
        p += 1;
    }
    assert(resolved@.take(resolved@.len() as int) == resolved@);
    n
}

pub open spec fn legislature_leq(a: LegislatureCount, b: LegislatureCount) -> bool {
    crate::text::lex_le(a.legislature@, b.legislature@)
}

pub open spec fn legislature_order() -> spec_fn(LegislatureCount, LegislatureCount) -> bool {
    |a: LegislatureCount, b: LegislatureCount| legislature_leq(a, b)
}

/// The counts of the signers without a group, by legislature.
fn legislature_counts(resolved: &Vec<ResolvedDossier>, dossiers: &Vec<Dossier>) -> (counts: Vec<
    LegislatureCount,
>)
    requires
        forall|p: int| 0 <= p < resolved@.len() ==> (#[trigger] resolved@[p]).index < dossiers@.len(),
    ensures
        are_legislature_counts(counts@, resolved@, dossiers@),
{
    let mut counts: Vec<LegislatureCount> = Vec::new();
    let mut p: usize = 0;
    while p < resolved.len()
        invariant
            p <= resolved@.len(),
            forall|q: int|
                0 <= q < resolved@.len() ==> (#[trigger] resolved@[q]).index < dossiers@.len(),
            forall|k: int|
                0 <= k < counts@.len() ==> (#[trigger] counts@[k]).count == capped(
                    legislature_total(resolved@, dossiers@, counts@[k].legislature@),
                ) && counts@[k].count > 0,
            forall|a: int, b: int|
                0 <= a < b < counts@.len() ==> (#[trigger] counts@[a]).legislature@ != (
                #[trigger] counts@[b]).legislature@,
            forall|q: int|
                0 <= q < p && unresolved_in(#[trigger] resolved@[q]) > 0 ==> exists|k: int|
                    0 <= k < counts@.len() && (#[trigger] counts@[k]).legislature@
                        == legislature_key(resolved@[q], dossiers@),
        decreases resolved@.len() - p,
    {
        let r = &resolved[p];
        let ghost before = counts@;
        let mut added = false;
        if count_unresolved(r) > 0 {
            let key = legislature_text(r, dossiers);
            let mut found = false;
            let mut k: usize = 0;
            while k < counts.len()
                invariant
                    k <= counts@.len(),
                    !found ==> forall|x: int|
                        0 <= x < k ==> (#[trigger] counts@[x]).legislature@ != key@,
                    found ==> exists|x: int|
                        0 <= x < counts@.len() && (#[trigger] counts@[x]).legislature@ == key@,
                decreases counts@.len() - k,
            {
                if counts[k].legislature == key {
                    found = true;
                }
                k += 1;
            }
            if !found {
                let count = legislature_sum(resolved, dossiers, &key);
                proof {
                    let f = unresolved_under(dossiers@, key@);
                    crate::counting::lemma_sum_ge_item(resolved@, f, p as int);
                }
                counts.push(LegislatureCount { legislature: key, count });
                added = true;
            }
        }
        proof {
            if added {
                assert forall|x: int| 0 <= x < before.len() implies counts@[x] == before[x] by {}
            }
            assert forall|q: int|
                0 <= q < p + 1 && unresolved_in(#[trigger] resolved@[q]) > 0 implies exists|
                k: int,
            |
                0 <= k < counts@.len() && (#[trigger] counts@[k]).legislature@ == legislature_key(
                    resolved@[q],
                    dossiers@,
                ) by {
                if q < p {
                    let k = choose|k: int|
                        0 <= k < before.len() && (#[trigger] before[k]).legislature@
                            == legislature_key(resolved@[q], dossiers@);
                    assert(counts@[k] == before[k]);
                } else if added {
                    assert(counts@[before.len() as int].legislature@ == legislature_key(
                        resolved@[q],
                        dossiers@,
                    ));
                }
            }
        }
        p += 1;
    }
    let ghost unsorted = counts@;
    proof {
        crate::text::lemma_lex_le_order();
    }
    let le = |a: &LegislatureCount, b: &LegislatureCount| -> (r: bool)
        ensures
            r == legislature_leq(*a, *b),
        {
            proof {
                crate::text::lemma_lex_total(a.legislature@, b.legislature@);
            }
            !crate::text::str_lt(b.legislature.as_str(), a.legislature.as_str())
        };
    crate::sorting::sort_by(&mut counts, le, Ghost(legislature_order()));
    proof {
        let sorted = counts@;
        crate::sorting::lemma_rearranged(unsorted, sorted);
        assert(unsorted.no_duplicates()) by {
            assert forall|a: int, b: int|
                0 <= a < unsorted.len() && 0 <= b < unsorted.len() && a != b implies unsorted[a]
                != unsorted[b] by {
                if a < b {
                    assert(unsorted[a].legislature@ != unsorted[b].legislature@);
                } else {
                    assert(unsorted[b].legislature@ != unsorted[a].legislature@);
                }
            }
        }
        assert forall|k: int| 0 <= k < sorted.len() implies (#[trigger] sorted[k]).count == capped(
            legislature_total(resolved@, dossiers@, sorted[k].legislature@),
        ) && sorted[k].count > 0 by {
            assert(unsorted.contains(sorted[k]));
        }
        assert forall|a: int, b: int| 0 <= a < b < sorted.len() implies crate::text::lex_lt(
            (#[trigger] sorted[a]).legislature@,
            (#[trigger] sorted[b]).legislature@,
        ) by {
            assert(legislature_order()(sorted[a], sorted[b]));
            assert(unsorted.contains(sorted[a]));
            assert(unsorted.contains(sorted[b]));
            let x = choose|x: int| 0 <= x < unsorted.len() && unsorted[x] == sorted[a];
            let y = choose|y: int| 0 <= y < unsorted.len() && unsorted[y] == sorted[b];
            assert(sorted[a] != sorted[b]);
            if x < y {
                assert(unsorted[x].legislature@ != unsorted[y].legislature@);
            } else {
                assert(unsorted[y].legislature@ != unsorted[x].legislature@);
            }
        }
        assert forall|key: Seq<char>|
            (#[trigger] legislature_total(resolved@, dossiers@, key)) > 0 implies exists|k: int|
            0 <= k < sorted.len() && (#[trigger] sorted[k]).legislature@ == key by {
            let q = crate::counting::lemma_sum_positive(
                resolved@,
                unresolved_under(dossiers@, key),
            );
            assert(unresolved_in(resolved@[q]) > 0);
            let u = choose|u: int|
                0 <= u < unsorted.len() && (#[trigger] unsorted[u]).legislature@ == legislature_key(
                    resolved@[q],
                    dossiers@,
                );
            assert(sorted.contains(unsorted[u]));
            let k = choose|k: int| 0 <= k < sorted.len() && sorted[k] == unsorted[u];
            assert(sorted[k].legislature@ == key);
        }
    }
    counts
}

fn count_deputes_with_group(deputes: &Vec<Depute>) -> (n: usize)
    ensures
        n == crate::counting::count_if(deputes@, with_group()),
        n <= deputes@.len(),
{
    let mut n: usize = 0;
    let mut i: usize = 0;
    while i < deputes.len()
        invariant
            i <= deputes@.len(),
            n == crate::counting::count_if(deputes@.take(i as int), with_group()),
            n <= i,
        decreases deputes@.len() - i,
    {
        proof {
            crate::counting::lemma_count_step(deputes@, i as int, with_group());
        }
        if declares_group(&deputes[i]) {
            n += 1;
        }
        i += 1;
    }
    assert(deputes@.take(deputes@.len() as int) == deputes@);
    n
}

/// The figures of a run of the linkage.
pub(crate) fn debug_summary(
    generated_at: &str,
    resolved: &Vec<ResolvedDossier>,
    deputes: &Vec<Depute>,
    dossiers: &Vec<Dossier>,
) -> (s: GroupPplDebugSummary)
    requires
        forall|p: int| 0 <= p < resolved@.len() ==> (#[trigger] resolved@[p]).index < dossiers@.len(),
    ensures
        is_debug_summary(s, generated_at@, resolved@, deputes@, dossiers@),
{
    let mut ppl: usize = 0;
    let mut assemblee: usize = 0;
    let mut senat: usize = 0;
    let mut unknown: usize = 0;
    let mut i: usize = 0;
    while i < dossiers.len()
        invariant
            i <= dossiers@.len(),
            ppl == crate::counting::count_if(dossiers@.take(i as int), is_ppl()),
            assemblee == crate::counting::count_if(dossiers@.take(i as int), ppl_of_assembly()),
            senat == crate::counting::count_if(dossiers@.take(i as int), ppl_of_senate()),
            assemblee + senat + unknown == ppl,
            ppl <= i,
        decreases dossiers@.len() - i,
    {
        proof {
            crate::counting::lemma_count_step(dossiers@, i as int, is_ppl());
            crate::counting::lemma_count_step(dossiers@, i as int, ppl_of_assembly());
            crate::counting::lemma_count_step(dossiers@, i as int, ppl_of_senate());
            crate::text::reveal_distinct_chambers();
        }
        let d = &dossiers[i];
        if is_proposition_de_loi(d) {
            ppl += 1;
            if is_from_assembly(d) {
                assemblee += 1;
            } else if is_from_senate(d) {
                senat += 1;
            } else {
                unknown += 1;
            }
        }
        i += 1;
    }
    assert(dossiers@.take(dossiers@.len() as int) == dossiers@);
    let with_group = count_deputes_with_group(deputes);
    let not_found = sum_resolved_as(resolved, Resolution::DeputyNotFound);
    let without_group = sum_resolved_as(resolved, Resolution::DeputyWithoutGroup);
    GroupPplDebugSummary {
        version: 1,
        generated_at: generated_at.to_string(),
        deputes_total: deputes.len(),
        deputes_with_group: with_group,
        deputes_without_group: deputes.len() - with_group,
        dossiers_total: dossiers.len(),
        ppl_detected: ppl,
        ppl_origin_assemblee: assemblee,
        ppl_origin_senat: senat,
        ppl_origin_unknown: unknown,
        ppl_skipped_non_assemblee: senat,
        ppl_with_signers: resolved.len(),
        unique_ppl_retained: count_bucket(resolved, dossiers, Bucket::Retained),
        total_author_signers_seen: count_with_author(resolved),
        total_cosigners_seen: sum_cosigners(resolved),
        signers_resolved_to_group: sum_resolved_as(resolved, Resolution::Group),
        signers_unresolved_deputy_not_found: not_found,
        signers_unresolved_deputy_without_group: without_group,
        unknown_bucket_ppl_entries: count_bucket(resolved, dossiers, Bucket::Unknown),
        unknown_bucket_authored_entries: count_bucket(resolved, dossiers, Bucket::UnknownAuthor),
        unknown_bucket_signers_seen: add_capped(
            not_found,
            without_group,
            Ghost(crate::counting::sum_of(resolved@, resolved_as(Resolution::DeputyNotFound))),
            Ghost(crate::counting::sum_of(resolved@, resolved_as(Resolution::DeputyWithoutGroup))),
        ),
        unresolved_by_legislature: legislature_counts(resolved, dossiers),
    }
}

/// Everything that the linkage publishes.
#[derive(Debug, Clone)]
pub struct GroupPplOutput {
    /// `index.json`.
    pub index: GroupPplIndex,
    /// The shards of the groups, in the order of the index; the index
    /// names the file of each.
    pub group_shards: Vec<GroupPplGroupShard>,
    /// The shards of the representatives.
    pub deputy_shards: Vec<DeputyPplFile>,
    /// `debug_summary.json`.
    pub debug_summary: GroupPplDebugSummary,
    /// `unresolved_signers_sample.json`.
    pub unresolved_samples: Vec<GroupPplUnresolvedSignerSample>,
    /// `deputes_id_audit.json`.
    pub deputy_id_audit: crate::id_audit::GroupPplDeputyIdAuditReport,
}

/// The output is the linkage of the bills of the files to the groups and
/// representatives, for the given resolution of the signers.
pub open spec fn is_output_for(
    out: GroupPplOutput,
    resolved: Seq<ResolvedDossier>,
    deputes: Seq<Depute>,
    dossiers: Seq<Dossier>,
    generated_at: Seq<char>,
) -> bool {
    &&& is_resolution(resolved, deputes, dossiers, dossiers.len() as int)
    &&& are_group_shards(out.group_shards@, generated_at, resolved, deputes, dossiers)
    &&& is_index(
        out.index,
        out.group_shards@,
        generated_at,
        crate::parser::distinct_texts(bucket_ids(resolved, dossiers, Bucket::Retained)).len(),
    )
    &&& are_deputy_files(out.deputy_shards@, generated_at, resolved, deputes, dossiers)
    &&& is_debug_summary(out.debug_summary, generated_at, resolved, deputes, dossiers)
    &&& are_samples(out.unresolved_samples@, unresolved_list(resolved), resolved, dossiers)
    &&& crate::id_audit::is_audit_report(out.deputy_id_audit, deputes, generated_at)
}

/// The output is the linkage of the bills of the files to the groups and
/// representatives.
pub open spec fn is_group_ppl_output(
    out: GroupPplOutput,
    deputes: Seq<Depute>,
    dossiers: Seq<Dossier>,
    generated_at: Seq<char>,
) -> bool {
    exists|resolved: Seq<ResolvedDossier>| #[trigger]
        is_output_for(out, resolved, deputes, dossiers, generated_at)
}

/// Links the member bills to the groups and representatives that signed
/// them: the index of the groups, a shard for each group and for each
/// representative, the figures of the run, a sample of the signers that
/// resolved to no group, and the audit of the ids.
pub fn write_group_ppl_json(deputes: &Vec<Depute>, dossiers: &Vec<Dossier>, generated_at_iso: &str)
    -> (out: GroupPplOutput)
    ensures
        is_group_ppl_output(out, deputes@, dossiers@, generated_at_iso@),
{
    let resolved = resolve_all(deputes, dossiers);
    let group_shards = group_shards(generated_at_iso, &resolved, deputes, dossiers);
    let debug_summary = debug_summary(generated_at_iso, &resolved, deputes, dossiers);
    let index = group_index(&group_shards, generated_at_iso, debug_summary.unique_ppl_retained);
    let deputy_shards = deputy_files(generated_at_iso, &resolved, deputes, dossiers);
    let unresolved_samples = unresolved_samples(&resolved, dossiers);
    let deputy_id_audit = crate::id_audit::build_deputy_id_audit_report(deputes, generated_at_iso);
    let out = GroupPplOutput {
        index,
        group_shards,
        deputy_shards,
        debug_summary,
        unresolved_samples,
        deputy_id_audit,
    };
    proof {
        assert(is_output_for(out, resolved@, deputes@, dossiers@, generated_at_iso@));
    }
    out
}

/// Some retained bill has the id.
pub open spec fn names_retained(id: Seq<char>, dossiers: Seq<Dossier>) -> bool {
    exists|i: int|
        0 <= i < dossiers.len() && retained(#[trigger] dossiers[i]) && dossiers[i].id@ == id
}

proof fn lemma_signed_positions(resolved: Seq<ResolvedDossier>, x: usize)
    ensures
        forall|k: int|
            0 <= k < signed_positions(resolved, x).len() ==> 0 <= (#[trigger] signed_positions(
                resolved,
                x,
            )[k]) < resolved.len(),
    decreases resolved.len(),
{
    if resolved.len() > 0 {
        lemma_signed_positions(resolved.drop_last(), x);
        let pos = signed_positions(resolved, x);
        let before = signed_positions(resolved.drop_last(), x);
        assert forall|k: int| 0 <= k < pos.len() implies 0 <= (#[trigger] pos[k])
            < resolved.len() by {
            if k < before.len() {
                assert(pos[k] == before[k]);
            }
        }
    }
}

proof fn lemma_unresolved_cosigners_pos(cosigners: Seq<ResolvedSigner>, pos: int)
    ensures
        forall|k: int|
            0 <= k < unresolved_cosigners(cosigners, pos).len() ==> (#[trigger] unresolved_cosigners(
                cosigners,
                pos,
            )[k]).pos == pos,
    decreases cosigners.len(),
{
    if cosigners.len() > 0 {
        lemma_unresolved_cosigners_pos(cosigners.drop_last(), pos);
        let list = unresolved_cosigners(cosigners, pos);
        let before = unresolved_cosigners(cosigners.drop_last(), pos);
        assert forall|k: int| 0 <= k < list.len() implies (#[trigger] list[k]).pos == pos by {
            if k < before.len() {
                assert(list[k] == before[k]);
            }
        }
    }
}

proof fn lemma_unresolved_list_pos(resolved: Seq<ResolvedDossier>)
    ensures
        forall|k: int|
            0 <= k < unresolved_list(resolved).len() ==> 0 <= (#[trigger] unresolved_list(
                resolved,
            )[k]).pos < resolved.len(),
    decreases resolved.len(),
{
    if resolved.len() > 0 {
        lemma_unresolved_list_pos(resolved.drop_last());
        lemma_unresolved_cosigners_pos(resolved.last().cosigners@, resolved.len() - 1);
        let list = unresolved_list(resolved);
        let before = unresolved_list(resolved.drop_last());
        let tail = unresolved_of(resolved.last(), resolved.len() - 1);
        assert forall|k: int| 0 <= k < list.len() implies 0 <= (#[trigger] list[k]).pos
            < resolved.len() by {
            if k < before.len() {
                assert(list[k] == before[k]);
            } else {
                assert(list[k] == tail[k - before.len()]);
                let cos = unresolved_cosigners(resolved.last().cosigners@, resolved.len() - 1);
                if tail.len() == cos.len() {
                    assert(tail == cos);
                } else {
                    if k - before.len() > 0 {
                        assert(tail[k - before.len()] == cos[k - before.len() - 1]);
                    }
                }
            }
        }
    }
}

proof fn lemma_group_item_retained(
    shard: GroupPplGroupShard,
    j: int,
    generated_at: Seq<char>,
    resolved: Seq<ResolvedDossier>,
    deputes: Seq<Depute>,
    dossiers: Seq<Dossier>,
)
    requires
        is_group_shard(
            shard,
            shard.group_id@,
            shard.group_label@,
            generated_at,
            resolved,
            deputes,
            dossiers,
        ),
        all_resolved(resolved, deputes, dossiers),
        0 <= j < shard.items@.len(),
    ensures
        names_retained(shard.items@[j].ppl_id@, dossiers),
{
    let unsorted = choose|unsorted: Seq<GroupPplItemSummary>| #[trigger]
        are_items_of(unsorted, shard.group_id@, resolved, deputes, dossiers)
            && crate::sorting::is_sorted_rearrangement(shard.items@, unsorted, item_order());
    crate::sorting::lemma_rearranged(unsorted, shard.items@);
    assert(unsorted.contains(shard.items@[j]));
    let u = choose|u: int| 0 <= u < unsorted.len() && unsorted[u] == shard.items@[j];
    lemma_touching(resolved, shard.group_id@);
    let p = touching(resolved, shard.group_id@)[u];
    assert(is_item_for(unsorted[u], shard.group_id@, resolved[p], deputes, dossiers));
    assert(resolved[p].is_resolution_of(deputes, dossiers));
    assert(retained(dossiers[resolved[p].index as int]));
}

proof fn lemma_deputy_item_retained(
    shard: DeputyPplShard,
    x: usize,
    j: int,
    generated_at: Seq<char>,
    resolved: Seq<ResolvedDossier>,
    deputes: Seq<Depute>,
    dossiers: Seq<Dossier>,
)
    requires
        is_deputy_shard(shard, x, generated_at, resolved, deputes, dossiers),
        all_resolved(resolved, deputes, dossiers),
        0 <= j < shard.items@.len(),
    ensures
        names_retained(shard.items@[j].ppl_id@, dossiers),
{
    let unsorted = choose|unsorted: Seq<DeputyPplItemSummary>| #[trigger]
        are_deputy_items(unsorted, x, resolved, dossiers)
            && crate::sorting::is_sorted_rearrangement(shard.items@, unsorted, deputy_item_order());
    crate::sorting::lemma_rearranged(unsorted, shard.items@);
    assert(unsorted.contains(shard.items@[j]));
    let u = choose|u: int| 0 <= u < unsorted.len() && unsorted[u] == shard.items@[j];
    lemma_signed_positions(resolved, x);
    let p = signed_positions(resolved, x)[u];
    assert(is_deputy_item(unsorted[u], x, resolved[p], dossiers));
    assert(resolved[p].is_resolution_of(deputes, dossiers));
    assert(retained(dossiers[resolved[p].index as int]));
}

proof fn lemma_sample_retained(
    samples: Seq<GroupPplUnresolvedSignerSample>,
    k: int,
    resolved: Seq<ResolvedDossier>,
    deputes: Seq<Depute>,
    dossiers: Seq<Dossier>,
)
    requires
        are_samples(samples, unresolved_list(resolved), resolved, dossiers),
        all_resolved(resolved, deputes, dossiers),
        0 <= k < samples.len(),
    ensures
        names_retained(samples[k].dossier_id@, dossiers),
{
    lemma_unresolved_list_pos(resolved);
    let u = unresolved_list(resolved)[k];
    assert(sample_shows(samples[k], u, resolved, dossiers));
    assert(resolved[u.pos].is_resolution_of(deputes, dossiers));
    assert(retained(dossiers[resolved[u.pos].index as int]));
}

/// What the linkage lists belongs to retained bills.
pub open spec fn lists_only_retained(out: GroupPplOutput, dossiers: Seq<Dossier>) -> bool {
    &&& forall|k: int, j: int|
        0 <= k < out.group_shards@.len() && 0 <= j < out.group_shards@[k].items@.len()
            ==> names_retained((#[trigger] out.group_shards@[k].items@[j]).ppl_id@, dossiers)
    &&& forall|k: int, j: int|
        0 <= k < out.deputy_shards@.len() && 0 <= j < out.deputy_shards@[k].shard.items@.len()
            ==> names_retained(
            (#[trigger] out.deputy_shards@[k].shard.items@[j]).ppl_id@,
            dossiers,
        )
    &&& forall|k: int|
        0 <= k < out.unresolved_samples@.len() ==> names_retained(
            (#[trigger] out.unresolved_samples@[k]).dossier_id@,
            dossiers,
        )
}

proof fn lemma_lists_only_retained(
    out: GroupPplOutput,
    resolved: Seq<ResolvedDossier>,
    deputes: Seq<Depute>,
    dossiers: Seq<Dossier>,
    generated_at: Seq<char>,
)
    requires
        all_resolved(resolved, deputes, dossiers),
        are_group_shards(out.group_shards@, generated_at, resolved, deputes, dossiers),
        are_deputy_files(out.deputy_shards@, generated_at, resolved, deputes, dossiers),
        are_samples(out.unresolved_samples@, unresolved_list(resolved), resolved, dossiers),
    ensures
        lists_only_retained(out, dossiers),
{
    assert forall|k: int, j: int|
        0 <= k < out.group_shards@.len() && 0 <= j
            < out.group_shards@[k].items@.len() implies names_retained(
        (#[trigger] out.group_shards@[k].items@[j]).ppl_id@,
        dossiers,
    ) by {
        let shard = out.group_shards@[k];
        assert(is_shard_of_group(shard, generated_at, resolved, deputes, dossiers));
        lemma_group_item_retained(shard, j, generated_at, resolved, deputes, dossiers);
    }
    assert forall|k: int, j: int|
        0 <= k < out.deputy_shards@.len() && 0 <= j
            < out.deputy_shards@[k].shard.items@.len() implies names_retained(
        (#[trigger] out.deputy_shards@[k].shard.items@[j]).ppl_id@,
        dossiers,
    ) by {
        let f = out.deputy_shards@[k];
        assert(is_file_of_signer(f, generated_at, resolved, deputes, dossiers));
        let x = choose|x: usize| #[trigger]
            is_deputy_file(f, x, generated_at, resolved, deputes, dossiers);
        lemma_deputy_item_retained(f.shard, x, j, generated_at, resolved, deputes, dossiers);
    }
    assert forall|k: int| 0 <= k < out.unresolved_samples@.len() implies names_retained(
        (#[trigger] out.unresolved_samples@[k]).dossier_id@,
        dossiers,
    ) by {
        lemma_sample_retained(out.unresolved_samples@, k, resolved, deputes, dossiers);
    }
}

/// Bills that are not retained stay out of everything that the linkage
/// lists: each item of each shard and each sample of an unresolved signer
/// belongs to a retained bill, and no bill from the senate is retained.
pub proof fn lemma_only_retained_bills(
    out: GroupPplOutput,
    deputes: Seq<Depute>,
    dossiers: Seq<Dossier>,
    generated_at: Seq<char>,
)
    requires
        is_group_ppl_output(out, deputes, dossiers, generated_at),
    ensures
        lists_only_retained(out, dossiers),
        forall|i: int| 0 <= i < dossiers.len() && from_senate(#[trigger] dossiers[i]) ==> !retained(
            dossiers[i],
        ),
{
    let resolved = choose|resolved: Seq<ResolvedDossier>| #[trigger]
        is_output_for(out, resolved, deputes, dossiers, generated_at);
    lemma_lists_only_retained(out, resolved, deputes, dossiers, generated_at);
}


/// No two legislative files share an id.
pub open spec fn distinct_file_ids(dossiers: Seq<Dossier>) -> bool {
    forall|i: int, j: int|
        0 <= i < j < dossiers.len() ==> (#[trigger] dossiers[i]).id@ != (#[trigger] dossiers[j]).id@
}

/// Nothing that the linkage lists has the id: no item of a shard of a
/// group or of a representative, and no sample of an unresolved signer.
pub open spec fn lists_nowhere(out: GroupPplOutput, id: Seq<char>) -> bool {
    &&& forall|k: int, j: int|
        0 <= k < out.group_shards@.len() && 0 <= j < out.group_shards@[k].items@.len() ==> (
        #[trigger] out.group_shards@[k].items@[j]).ppl_id@ != id
    &&& forall|k: int, j: int|
        0 <= k < out.deputy_shards@.len() && 0 <= j < out.deputy_shards@[k].shard.items@.len()
            ==> (#[trigger] out.deputy_shards@[k].shard.items@[j]).ppl_id@ != id
    &&& forall|k: int|
        0 <= k < out.unresolved_samples@.len() ==> (#[trigger] out.unresolved_samples@[k]).dossier_id@
            != id
}

/// Only one file has the id of a file where no two share an id, so an id
/// that names a retained bill is not that of a bill that is not retained.
proof fn lemma_not_named(dossiers: Seq<Dossier>, i: int, id: Seq<char>)
    requires
        distinct_file_ids(dossiers),
        0 <= i < dossiers.len(),
        !retained(dossiers[i]),
        names_retained(id, dossiers),
    ensures
        id != dossiers[i].id@,
{
    let m = choose|m: int|
        0 <= m < dossiers.len() && retained(#[trigger] dossiers[m]) && dossiers[m].id@ == id;
    if m < i {
        assert(dossiers[m].id@ != dossiers[i].id@);
    } else if i < m {
        assert(dossiers[i].id@ != dossiers[m].id@);
    }
}

/// A bill that is not retained is listed nowhere, where no two legislative
/// files share an id: its id is that of no item of any shard, of a group or
/// of a representative, and of no sample of an unresolved signer. Every
/// bill from the senate is such a bill.
pub proof fn lemma_senate_bills_absent(
    out: GroupPplOutput,
    deputes: Seq<Depute>,
    dossiers: Seq<Dossier>,
    generated_at: Seq<char>,
    i: int,
)
    requires
        is_group_ppl_output(out, deputes, dossiers, generated_at),
        distinct_file_ids(dossiers),
        0 <= i < dossiers.len(),
        from_senate(dossiers[i]) || !retained(dossiers[i]),
    ensures
        lists_nowhere(out, dossiers[i].id@),
{
    lemma_only_retained_bills(out, deputes, dossiers, generated_at);
    let id = dossiers[i].id@;
    assert forall|k: int, j: int|
        0 <= k < out.group_shards@.len() && 0 <= j < out.group_shards@[k].items@.len() implies (
    #[trigger] out.group_shards@[k].items@[j]).ppl_id@ != id by {
        lemma_not_named(dossiers, i, out.group_shards@[k].items@[j].ppl_id@);
    }
    assert forall|k: int, j: int|
        0 <= k < out.deputy_shards@.len() && 0 <= j
            < out.deputy_shards@[k].shard.items@.len() implies (
    #[trigger] out.deputy_shards@[k].shard.items@[j]).ppl_id@ != id by {
        lemma_not_named(dossiers, i, out.deputy_shards@[k].shard.items@[j].ppl_id@);
    }
    assert forall|k: int| 0 <= k < out.unresolved_samples@.len() implies (
    #[trigger] out.unresolved_samples@[k]).dossier_id@ != id by {
        lemma_not_named(dossiers, i, out.unresolved_samples@[k].dossier_id@);
    }
}

} // verus!
