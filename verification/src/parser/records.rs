//! Records read from the documents of the open-data dumps.

use vstd::prelude::*;
use crate::dates::Date;
use crate::json::{one_or_many, Json};
use crate::id_audit::{sorted_insert, strictly_sorted};
use crate::models::{Amendement, Depute, Dossier, Organe, Scrutin, Vote, VotePosition};
use crate::parser::contact::{
    email_of, read_contact, site_sources, site_urls, source_views, telephones_of,
};
use crate::parser::mandates::{
    episodes_of, read_episodes, read_mandates, scan_mandates, MandateState,
};
use crate::numbers::{chars_parse_unsigned, parse_unsigned};
use crate::parser::{
    date_of, dedup_actor_refs_keep_order, dedup_refs, expose_sommaire, holds_text,
    normalize_expose_sommaire, normalize_profession_label, normalize_sexe_label, normalize_urlish,
    parse_date, profession_label, sexe_label, texts, urlish, EXPOSE_MAX_CHARS,
};
use crate::text::{
    chars_contains, chars_of, chars_trim, contains_text, lowercase_of, opt_text, str_eq,
    str_to_lowercase, text_of, trim,
};

verus! {

/// The first of two optional values that is there.
pub open spec fn or_else<T>(a: Option<T>, b: Option<T>) -> Option<T> {
    match a {
        Some(x) => Some(x),
        None => b,
    }
}

/// What `f` gives for the items of a list, joined in the order of the
/// items.
pub open spec fn flat<T>(items: Seq<Json>, f: spec_fn(Json) -> Seq<T>) -> Seq<T>
    decreases items.len(),
{
    if items.len() == 0 {
        Seq::empty()
    } else {
        flat(items.drop_last(), f) + f(items.last())
    }
}

pub proof fn lemma_flat_step<T>(items: Seq<Json>, i: int, f: spec_fn(Json) -> Seq<T>)
    requires
        0 <= i < items.len(),
    ensures
        flat(items.take(i + 1), f) == flat(items.take(i), f) + f(items[i]),
{
    assert(items.take(i + 1).drop_last() == items.take(i));
}

/// The text of a string member.
pub open spec fn text_at(v: Json, key: Seq<char>) -> Option<Seq<char>> {
    v.at(key).text()
}

/// The id of a record: the text of `uid`, or of the member `#text` of
/// `uid`.
pub open spec fn uid_of(v: Json) -> Option<Seq<char>> {
    or_else(v.at("uid"@).at("#text"@).text(), v.at("uid"@).text())
}

fn uid(v: &Json) -> (r: Option<String>)
    ensures
        opt_text(r) == uid_of(*v),
{
    match v.get("uid").get("#text").string() {
        Some(s) => Some(s),
        None => v.get("uid").string(),
    }
}

/// The body of a record is read when the record has an id and a type
/// code.
pub open spec fn is_organe(o: Organe, v: Json) -> bool {
    &&& Some(o.id@) == uid_of(v)
    &&& Some(o.code_type@) == text_at(v, "codeType"@)
    &&& o.libelle@ == match text_at(v, "libelle"@) {
        Some(s) => s,
        None => Seq::empty(),
    }
    &&& opt_text(o.abrev) == text_at(v, "libelleAbrev"@)
    &&& opt_text(o.couleur) == text_at(v, "couleurAssociee"@)
}

pub fn parse_organe(v: &Json) -> (r: Option<Organe>)
    ensures
        r is Some <==> uid_of(*v) is Some && text_at(*v, "codeType"@) is Some,
        r matches Some(o) ==> is_organe(o, *v),
{
    let id = match uid(v) {
        Some(s) => s,
        None => {
            return None;
        },
    };
    let code_type = match v.get("codeType").string() {
        Some(s) => s,
        None => {
            return None;
        },
    };
    let libelle = match v.get("libelle").string() {
        Some(s) => s,
        None => String::new(),
    };
    Some(
        Organe {
            id,
            code_type,
            libelle,
            abrev: v.get("libelleAbrev").string(),
            couleur: v.get("couleurAssociee").string(),
        },
    )
}

/// A vote as the document records it: who, and how.
pub struct Ballot {
    pub id: Seq<char>,
    pub position: VotePosition,
}

/// The id of a voter: the first that is there of `acteurRef`,
/// `acteur.acteurRef`, `acteur.uid` and `uid`.
pub open spec fn voter_id(votant: Json) -> Option<Seq<char>> {
    or_else(
        text_at(votant, "acteurRef"@),
        or_else(
            votant.at("acteur"@).at("acteurRef"@).text(),
            or_else(votant.at("acteur"@).at("uid"@).text(), text_at(votant, "uid"@)),
        ),
    )
}

pub open spec fn voter_ballot(position: VotePosition) -> spec_fn(Json) -> Seq<Ballot> {
    |votant: Json|
        match voter_id(votant) {
            Some(id) => seq![Ballot { id, position }],
            None => Seq::empty(),
        }
}

/// The voters of a category of a count: those under `votant` and those
/// under `votants.votant`.
pub open spec fn category_voters(decompte: Json, category: Seq<char>) -> Seq<Json> {
    if decompte.at(category) is Null {
        Seq::empty()
    } else {
        decompte.at(category).at("votant"@).items() + decompte.at(category).at("votants"@).at(
            "votant"@,
        ).items()
    }
}

pub open spec fn category_ballots(decompte: Json, category: Seq<char>, position: VotePosition)
    -> Seq<Ballot> {
    flat(category_voters(decompte, category), voter_ballot(position))
}

/// The votes of a count, category by category: for, against, abstaining,
/// not voting, each under its plural and its singular name.
pub open spec fn count_ballots(decompte: Json) -> Seq<Ballot> {
    category_ballots(decompte, "pours"@, VotePosition::Pour) + category_ballots(
        decompte,
        "pour"@,
        VotePosition::Pour,
    ) + category_ballots(decompte, "contres"@, VotePosition::Contre) + category_ballots(
        decompte,
        "contre"@,
        VotePosition::Contre,
    ) + category_ballots(decompte, "abstentions"@, VotePosition::Abstention) + category_ballots(
        decompte,
        "abstention"@,
        VotePosition::Abstention,
    ) + category_ballots(decompte, "nonVotants"@, VotePosition::NonVotant) + category_ballots(
        decompte,
        "nonVotant"@,
        VotePosition::NonVotant,
    )
}

/// The count of a group: `vote.decompteNominatif`, else `votes`, else
/// `vote`, whichever is an object first.
pub open spec fn group_count(groupe: Json) -> Option<Json> {
    if groupe.at("vote"@).at("decompteNominatif"@) is Object {
        Some(groupe.at("vote"@).at("decompteNominatif"@))
    } else if groupe.at("votes"@) is Object {
        Some(groupe.at("votes"@))
    } else if groupe.at("vote"@) is Object {
        Some(groupe.at("vote"@))
    } else {
        None
    }
}

pub open spec fn group_ballots() -> spec_fn(Json) -> Seq<Ballot> {
    |groupe: Json|
        match group_count(groupe) {
            Some(decompte) => count_ballots(decompte),
            None => Seq::empty(),
        }
}

/// The groups of a body of the breakdown of a vote.
pub open spec fn body_groups(org: Json) -> Seq<Json> {
    org.at("groupes"@).at("groupe"@).items() + org.at("groupes"@).at("organe"@).items() + org.at(
        "groupe"@,
    ).items() + org.at("organe"@).items()
}

pub open spec fn body_ballots() -> spec_fn(Json) -> Seq<Ballot> {
    |org: Json| flat(body_groups(org), group_ballots())
}

/// The votes of a roll call in the order in which the document holds them.
pub open spec fn ballots(v: Json) -> Seq<Ballot> {
    flat(v.at("ventilationVotes"@).at("organe"@).items(), body_ballots())
}

/// Some earlier vote of the list is of the representative.
pub open spec fn voted(list: Seq<Ballot>, id: Seq<char>) -> bool {
    exists|k: int| 0 <= k < list.len() && (#[trigger] list[k]).id == id
}

/// The votes of a list, one for each representative: the first that the
/// list holds.
pub open spec fn first_ballots(list: Seq<Ballot>) -> Seq<Ballot>
    decreases list.len(),
{
    if list.len() == 0 {
        list
    } else {
        let head = first_ballots(list.drop_last());
        if voted(list.drop_last(), list.last().id) {
            head
        } else {
            head.push(list.last())
        }
    }
}

pub open spec fn ballot_of(v: Vote) -> Ballot {
    Ballot { id: v.deputy_id@, position: v.position }
}

pub open spec fn ballots_of(votes: Seq<Vote>) -> Seq<Ballot> {
    Seq::new(votes.len(), |i: int| ballot_of(votes[i]))
}

fn voter(votant: &Json) -> (r: Option<String>)
    ensures
        opt_text(r) == voter_id(*votant),
{
    match votant.get("acteurRef").string() {
        Some(s) => Some(s),
        None => match votant.get("acteur").get("acteurRef").string() {
            Some(s) => Some(s),
            None => match votant.get("acteur").get("uid").string() {
                Some(s) => Some(s),
                None => votant.get("uid").string(),
            },
        },
    }
}

fn add_voters(out: &mut Vec<Vote>, voters: &Vec<&Json>, position: VotePosition, Ghost(items): Ghost<Seq<Json>>)
    requires
        voters@.len() == items.len(),
        forall|i: int| 0 <= i < voters@.len() ==> *(#[trigger] voters@[i]) == items[i],
    ensures
        ballots_of(final(out)@) == ballots_of(old(out)@) + flat(items, voter_ballot(position)),
{
    let ghost before = ballots_of(out@);
    let ghost f = voter_ballot(position);
    let mut i: usize = 0;
    assert(before + flat(items.take(0), f) == before);
    while i < voters.len()
        invariant
            i <= voters@.len(),
            voters@.len() == items.len(),
            forall|k: int| 0 <= k < voters@.len() ==> *(#[trigger] voters@[k]) == items[k],
            f == voter_ballot(position),
            ballots_of(out@) == before + flat(items.take(i as int), f),
        decreases voters@.len() - i,
    {
        let ghost so_far = out@;
        proof {
            lemma_flat_step(items, i as int, f);
        }
        match voter(voters[i]) {
            Some(id) => {
                out.push(Vote { deputy_id: id, position });
                proof {
                    assert(ballots_of(out@) =~= ballots_of(so_far).push(
                        Ballot { id: id@, position },
                    ));
                    assert(f(items[i as int]) == seq![Ballot { id: id@, position }]);
                    assert(before + (flat(items.take(i as int), f) + f(items[i as int]))
                        == ballots_of(so_far) + seq![Ballot { id: id@, position }]);
                }
            },
            None => {
                proof {
                    assert(flat(items.take(i as int), f) + f(items[i as int]) == flat(
                        items.take(i as int),
                        f,
                    ));
                }
            },
        }
        i += 1;
    }
    assert(items.take(items.len() as int) == items);
}

/// Joins two lists of references.
pub(crate) fn join<'a>(a: Vec<&'a Json>, b: Vec<&'a Json>, Ghost(x): Ghost<Seq<Json>>, Ghost(y): Ghost<Seq<Json>>) -> (r: Vec<&'a Json>)
    requires
        a@.len() == x.len(),
        forall|i: int| 0 <= i < a@.len() ==> *(#[trigger] a@[i]) == x[i],
        b@.len() == y.len(),
        forall|i: int| 0 <= i < b@.len() ==> *(#[trigger] b@[i]) == y[i],
    ensures
        r@.len() == (x + y).len(),
        forall|i: int| 0 <= i < r@.len() ==> *(#[trigger] r@[i]) == (x + y)[i],
{
    let mut r = a;
    let mut i: usize = 0;
    while i < b.len()
        invariant
            i <= b@.len(),
            b@.len() == y.len(),
            forall|k: int| 0 <= k < b@.len() ==> *(#[trigger] b@[k]) == y[k],
            r@.len() == x.len() + i,
            forall|k: int| 0 <= k < x.len() ==> *(#[trigger] r@[k]) == x[k],
            forall|k: int| 0 <= k < i ==> *(#[trigger] r@[x.len() + k]) == y[k],
        decreases b@.len() - i,
    {
        r.push(b[i]);
        i += 1;
    }
    proof {
        assert forall|k: int| 0 <= k < r@.len() implies *(#[trigger] r@[k]) == (x + y)[k] by {
            if k >= x.len() {
                assert(*r@[x.len() + (k - x.len())] == y[k - x.len()]);
            }
        }
    }
    r
}

fn add_category(out: &mut Vec<Vote>, decompte: &Json, category: &str, position: VotePosition)
    ensures
        ballots_of(final(out)@) == ballots_of(old(out)@) + category_ballots(
            *decompte,
            category@,
            position,
        ),
{
    let bucket = decompte.get(category);
    if bucket.is_null() {
        assert(ballots_of(out@) + Seq::<Ballot>::empty() == ballots_of(out@));
        assert(flat(Seq::<Json>::empty(), voter_ballot(position)) == Seq::<Ballot>::empty());
        return ;
    }
    let a = one_or_many(bucket.get("votant"));
    let b = one_or_many(bucket.get("votants").get("votant"));
    let ghost x = bucket.at("votant"@).items();
    let ghost y = bucket.at("votants"@).at("votant"@).items();
    let voters = join(a, b, Ghost(x), Ghost(y));
    add_voters(out, &voters, position, Ghost(x + y));
}

fn add_count(out: &mut Vec<Vote>, decompte: &Json)
    ensures
        ballots_of(final(out)@) == ballots_of(old(out)@) + count_ballots(*decompte),
{
    let ghost start = ballots_of(out@);
    add_category(out, decompte, "pours", VotePosition::Pour);
    add_category(out, decompte, "pour", VotePosition::Pour);
    add_category(out, decompte, "contres", VotePosition::Contre);
    add_category(out, decompte, "contre", VotePosition::Contre);
    add_category(out, decompte, "abstentions", VotePosition::Abstention);
    add_category(out, decompte, "abstention", VotePosition::Abstention);
    add_category(out, decompte, "nonVotants", VotePosition::NonVotant);
    add_category(out, decompte, "nonVotant", VotePosition::NonVotant);
    proof {
        let d = *decompte;
        let c1 = category_ballots(d, "pours"@, VotePosition::Pour);
        let c2 = category_ballots(d, "pour"@, VotePosition::Pour);
        let c3 = category_ballots(d, "contres"@, VotePosition::Contre);
        let c4 = category_ballots(d, "contre"@, VotePosition::Contre);
        let c5 = category_ballots(d, "abstentions"@, VotePosition::Abstention);
        let c6 = category_ballots(d, "abstention"@, VotePosition::Abstention);
        let c7 = category_ballots(d, "nonVotants"@, VotePosition::NonVotant);
        let c8 = category_ballots(d, "nonVotant"@, VotePosition::NonVotant);
        assert(start + c1 + c2 + c3 + c4 + c5 + c6 + c7 + c8 =~= start + (c1 + c2 + c3 + c4 + c5
            + c6 + c7 + c8));
    }
}

fn add_group(out: &mut Vec<Vote>, groupe: &Json)
    ensures
        ballots_of(final(out)@) == ballots_of(old(out)@) + group_ballots()(*groupe),
{
    if groupe.get("vote").get("decompteNominatif").is_object() {
        add_count(out, groupe.get("vote").get("decompteNominatif"));
    } else if groupe.get("votes").is_object() {
        add_count(out, groupe.get("votes"));
    } else if groupe.get("vote").is_object() {
        add_count(out, groupe.get("vote"));
    } else {
        assert(ballots_of(out@) + Seq::<Ballot>::empty() == ballots_of(out@));
    }
}

fn add_body(out: &mut Vec<Vote>, org: &Json)
    ensures
        ballots_of(final(out)@) == ballots_of(old(out)@) + body_ballots()(*org),
{
    let ghost x1 = org.at("groupes"@).at("groupe"@).items();
    let ghost x2 = org.at("groupes"@).at("organe"@).items();
    let ghost x3 = org.at("groupe"@).items();
    let ghost x4 = org.at("organe"@).items();
    let g = join(
        one_or_many(org.get("groupes").get("groupe")),
        one_or_many(org.get("groupes").get("organe")),
        Ghost(x1),
        Ghost(x2),
    );
    let g = join(g, one_or_many(org.get("groupe")), Ghost(x1 + x2), Ghost(x3));
    let groups = join(g, one_or_many(org.get("organe")), Ghost(x1 + x2 + x3), Ghost(x4));
    let ghost items = body_groups(*org);
    let ghost before = ballots_of(out@);
    let ghost f = group_ballots();
    let mut i: usize = 0;
    assert(before + flat(items.take(0), f) == before);
    while i < groups.len()
        invariant
            i <= groups@.len(),
            groups@.len() == items.len(),
            forall|k: int| 0 <= k < groups@.len() ==> *(#[trigger] groups@[k]) == items[k],
            f == group_ballots(),
            ballots_of(out@) == before + flat(items.take(i as int), f),
        decreases groups@.len() - i,
    {
        proof {
            lemma_flat_step(items, i as int, f);
            assert(before + (flat(items.take(i as int), f) + f(items[i as int])) == (before + flat(
                items.take(i as int),
                f,
            )) + f(items[i as int]));
        }
        add_group(out, groups[i]);
        i += 1;
    }
    assert(items.take(items.len() as int) == items);
}

/// The votes of a roll call in the order of the document.
fn all_ballots(v: &Json) -> (out: Vec<Vote>)
    ensures
        ballots_of(out@) == ballots(*v),
{
    let mut out: Vec<Vote> = Vec::new();
    let bodies = one_or_many(v.get("ventilationVotes").get("organe"));
    let ghost items = v.at("ventilationVotes"@).at("organe"@).items();
    let ghost f = body_ballots();
    let mut i: usize = 0;
    assert(ballots_of(out@) =~= flat(items.take(0), f));
    while i < bodies.len()
        invariant
            i <= bodies@.len(),
            bodies@.len() == items.len(),
            forall|k: int| 0 <= k < bodies@.len() ==> *(#[trigger] bodies@[k]) == items[k],
            f == body_ballots(),
            ballots_of(out@) == flat(items.take(i as int), f),
        decreases bodies@.len() - i,
    {
        proof {
            lemma_flat_step(items, i as int, f);
        }
        add_body(&mut out, bodies[i]);
        i += 1;
    }
    assert(items.take(items.len() as int) == items);
    out
}

proof fn lemma_voted_push(list: Seq<Ballot>, b: Ballot, id: Seq<char>)
    ensures
        voted(list.push(b), id) <==> voted(list, id) || b.id == id,
{
    let more = list.push(b);
    if voted(list, id) {
        let k = choose|k: int| 0 <= k < list.len() && (#[trigger] list[k]).id == id;
        assert(more[k].id == id);
    }
    if b.id == id {
        assert(more[list.len() as int].id == id);
    }
    if voted(more, id) {
        let k = choose|k: int| 0 <= k < more.len() && (#[trigger] more[k]).id == id;
        if k < list.len() {
            assert(list[k].id == id);
        }
    }
}

/// One vote for each representative: the first of the list.
fn first_votes(all: Vec<Vote>) -> (votes: Vec<Vote>)
    ensures
        ballots_of(votes@) == first_ballots(ballots_of(all@)),
{
    let ghost given = ballots_of(all@);
    let mut votes: Vec<Vote> = Vec::new();
    let mut i: usize = 0;
    assert(ballots_of(votes@) =~= first_ballots(given.take(0)));
    while i < all.len()
        invariant
            i <= all@.len(),
            given == ballots_of(all@),
            ballots_of(votes@) == first_ballots(given.take(i as int)),
            forall|id: Seq<char>|
                #[trigger] voted(ballots_of(votes@), id) <==> voted(given.take(i as int), id),
        decreases all@.len() - i,
    {
        let ghost before = votes@;
        let ghost head = given.take(i as int);
        proof {
            assert(given.take(i + 1).drop_last() == head);
            assert(given.take(i + 1) == head.push(given[i as int]));
            assert forall|id: Seq<char>|
                voted(given.take(i + 1), id) <==> voted(head, id) || given[i as int].id == id by {
                lemma_voted_push(head, given[i as int], id);
            }
        }
        let mut found = false;
        let mut k: usize = 0;
        while k < votes.len()
            invariant
                k <= votes@.len(),
                i < all@.len(),
                !found ==> forall|x: int|
                    0 <= x < k ==> (#[trigger] votes@[x]).deputy_id@ != all@[i as int].deputy_id@,
                found ==> exists|x: int|
                    0 <= x < votes@.len() && (#[trigger] votes@[x]).deputy_id@
                        == all@[i as int].deputy_id@,
            decreases votes@.len() - k,
        {
            if votes[k].deputy_id == all[i].deputy_id {
                found = true;
            }
            k += 1;
        }
        proof {
            let id = all@[i as int].deputy_id@;
            if found {
                let x = choose|x: int|
                    0 <= x < votes@.len() && (#[trigger] votes@[x]).deputy_id@ == id;
                assert(ballots_of(votes@)[x].id == id);
                assert(voted(ballots_of(votes@), id));
            } else {
                if voted(ballots_of(votes@), id) {
                    let x = choose|x: int|
                        0 <= x < ballots_of(votes@).len() && (#[trigger] ballots_of(votes@)[x]).id
                            == id;
                    assert(votes@[x].deputy_id@ == id);
                }
            }
        }
        if !found {
            votes.push(Vote { deputy_id: all[i].deputy_id.clone(), position: all[i].position });
            proof {
                assert(ballots_of(votes@) =~= ballots_of(before).push(given[i as int]));
                assert forall|id: Seq<char>| #[trigger]
                    voted(ballots_of(votes@), id) <==> voted(given.take(i + 1), id) by {
                    lemma_voted_push(ballots_of(before), given[i as int], id);
                }
            }
        }
        i += 1;
    }
    assert(given.take(all@.len() as int) == given);
    votes
}

/// The number of a roll call: read from a text of digits, else taken from
/// an unsigned number cut to 32 bits, else zero.
pub open spec fn scrutin_numero(v: Json) -> u32 {
    let from_text = match text_at(v, "numero"@) {
        Some(s) => parse_unsigned(s, 10, u32::MAX as nat),
        None => None,
    };
    match from_text {
        Some(n) => n as u32,
        None => match v.at("numero"@) {
            Json::Number(Some(n)) => (n % 0x1_0000_0000) as u32,
            _ => 0,
        },
    }
}

/// The roll call is that of the record.
pub open spec fn is_scrutin(s: Scrutin, v: Json) -> bool {
    &&& Some(s.id@) == text_at(v, "uid"@)
    &&& s.numero == scrutin_numero(v)
    &&& s.titre@ == match or_else(text_at(v, "titre"@), v.at("objet"@).at("libelle"@).text()) {
        Some(t) => t,
        None => Seq::empty(),
    }
    &&& s.date == match text_at(v, "dateScrutin"@) {
        Some(t) => date_of(t),
        None => None,
    }
    &&& opt_text(s.sort) == or_else(
        v.at("sort"@).at("value"@).text(),
        or_else(
            v.at("sort"@).at("libelle"@).text(),
            or_else(v.at("sort"@).at("code"@).text(), text_at(v, "sort"@)),
        ),
    )
    &&& opt_text(s.dossier_ref) == or_else(
        text_at(v, "dossierRef"@),
        v.at("objet"@).at("dossierLegislatif"@).text(),
    )
    &&& ballots_of(s.votes@) == first_ballots(ballots(v))
}

/// Reads a roll call: a record with an id, with the first position that
/// the document records for each representative.
pub fn parse_scrutin(v: &Json) -> (r: Option<Scrutin>)
    ensures
        r is Some <==> text_at(*v, "uid"@) is Some,
        r matches Some(s) ==> is_scrutin(s, *v),
{
    let id = match v.get("uid").string() {
        Some(s) => s,
        None => {
            return None;
        },
    };
    let from_text = match v.get("numero").as_str() {
        Some(s) => chars_parse_unsigned(&chars_of(s.as_str()), 10, u32::MAX),
        None => None,
    };
    let numero: u32 = match from_text {
        Some(n) => n,
        None => match v.get("numero").as_u64() {
            Some(n) => (n % 0x1_0000_0000) as u32,
            None => 0,
        },
    };
    let titre = match v.get("titre").string() {
        Some(t) => t,
        None => match v.get("objet").get("libelle").string() {
            Some(t) => t,
            None => String::new(),
        },
    };
    let date = match v.get("dateScrutin").as_str() {
        Some(t) => parse_date(t.as_str()),
        None => None,
    };
    let sort = match v.get("sort").get("value").string() {
        Some(s) => Some(s),
        None => match v.get("sort").get("libelle").string() {
            Some(s) => Some(s),
            None => match v.get("sort").get("code").string() {
                Some(s) => Some(s),
                None => v.get("sort").string(),
            },
        },
    };
    let dossier_ref = match v.get("dossierRef").string() {
        Some(s) => Some(s),
        None => v.get("objet").get("dossierLegislatif").string(),
    };
    let votes = first_votes(all_ballots(v));
    Some(Scrutin { id, numero, titre, date, sort, dossier_ref, votes })
}

/// The references that a value holds: the trimmed text of a string, the
/// trimmed texts of the strings of an array; blank ones left out.
pub open spec fn refs_of(v: Json) -> Seq<Seq<char>> {
    match v {
        Json::Str(s) => if trim(s@).len() > 0 {
            seq![trim(s@)]
        } else {
            Seq::empty()
        },
        Json::Array(items) => flat(items@, ref_of_item()),
        _ => Seq::empty(),
    }
}

pub open spec fn ref_of_item() -> spec_fn(Json) -> Seq<Seq<char>> {
    |item: Json|
        match item.text() {
            Some(s) => if trim(s).len() > 0 {
                seq![trim(s)]
            } else {
                Seq::empty()
            },
            None => Seq::empty(),
        }
}

fn add_trimmed(out: &mut Vec<String>, s: &String)
    ensures
        texts(final(out)@) == texts(old(out)@) + if trim(s@).len() > 0 {
            seq![trim(s@)]
        } else {
            Seq::empty()
        },
{
    let t = chars_trim(&chars_of(s.as_str()));
    let ghost before = out@;
    if t.len() > 0 {
        out.push(text_of(&t));
        assert(texts(out@) =~= texts(before) + seq![trim(s@)]);
    } else {
        assert(texts(out@) =~= texts(before) + Seq::<Seq<char>>::empty());
    }
}

/// Appends the references that a value holds.
fn add_refs(out: &mut Vec<String>, v: &Json)
    ensures
        texts(final(out)@) == texts(old(out)@) + refs_of(*v),
{
    let ghost before = texts(out@);
    match v {
        Json::Str(s) => {
            add_trimmed(out, s);
        },
        Json::Array(items) => {
            let ghost f = ref_of_item();
            let mut i: usize = 0;
            assert(before + flat(items@.take(0), f) =~= before);
            while i < items.len()
                invariant
                    i <= items@.len(),
                    f == ref_of_item(),
                    texts(out@) == before + flat(items@.take(i as int), f),
                decreases items@.len() - i,
            {
                let ghost so_far = texts(out@);
                proof {
                    lemma_flat_step(items@, i as int, f);
                    assert(before + (flat(items@.take(i as int), f) + f(items@[i as int]))
                        == so_far + f(items@[i as int]));
                }
                match items[i].as_str() {
                    Some(s) => {
                        add_trimmed(out, s);
                    },
                    None => {
                        assert(so_far + Seq::<Seq<char>>::empty() == so_far);
                    },
                }
                i += 1;
            }
            assert(items@.take(items@.len() as int) == items@);
        },
        _ => {
            assert(before + Seq::<Seq<char>>::empty() == before);
        },
    }
}

/// The list holds, sorted, the texts of `raw`, each once.
pub open spec fn is_sorted_set(list: Seq<String>, raw: Seq<Seq<char>>) -> bool {
    &&& strictly_sorted(list)
    &&& forall|key: Seq<char>| #[trigger] holds_text(list, key) <==> raw.contains(key)
}

/// The texts of a list sorted, each once.
pub fn sorted_set(raw: &Vec<String>) -> (list: Vec<String>)
    ensures
        is_sorted_set(list@, texts(raw@)),
{
    let ghost given = texts(raw@);
    let mut list: Vec<String> = Vec::new();
    let mut i: usize = 0;
    assert forall|key: Seq<char>| !(#[trigger] holds_text(list@, key)) by {}
    while i < raw.len()
        invariant
            i <= raw@.len(),
            given == texts(raw@),
            strictly_sorted(list@),
            forall|key: Seq<char>| #[trigger] holds_text(list@, key) <==> given.take(i as int).contains(key),
        decreases raw@.len() - i,
    {
        let ghost before = list@;
        let ghost head = given.take(i as int);
        proof {
            assert forall|key: Seq<char>|
                given.take(i + 1).contains(key) <==> head.contains(key) || key
                    == given[i as int] by {
                if head.contains(key) {
                    let x = choose|x: int| 0 <= x < head.len() && head[x] == key;
                    assert(given.take(i + 1)[x] == key);
                }
                if key == given[i as int] {
                    assert(given.take(i + 1)[i as int] == key);
                }
            }
        }
        sorted_insert(&mut list, &raw[i]);
        proof {
            assert forall|key: Seq<char>| #[trigger]
                holds_text(list@, key) <==> given.take(i + 1).contains(key) by {
                assert(holds_text(before, key) <==> head.contains(key));
            }
        }
        i += 1;
    }
    assert(given.take(raw@.len() as int) == given);
    list
}

pub open spec fn cosigner_ref() -> spec_fn(Json) -> Seq<Seq<char>> {
    |c: Json|
        match text_at(c, "acteurRef"@) {
            Some(s) => seq![s],
            None => Seq::empty(),
        }
}

/// The co-signers that the record of an amendment names: the references
/// under `cosignataires.acteurRef`, and where there is none, those of the
/// records under `cosignataires.cosignataire`.
pub open spec fn amendement_cosigners(v: Json) -> Seq<Seq<char>> {
    let c = v.at("signataires"@).at("cosignataires"@);
    if refs_of(c.at("acteurRef"@)).len() > 0 {
        refs_of(c.at("acteurRef"@))
    } else {
        flat(c.at("cosignataire"@).items(), cosigner_ref())
    }
}

/// The outcome that the record of an amendment states: the first that is
/// there of the places where the dumps keep it.
pub open spec fn amendement_sort(v: Json) -> Option<Seq<char>> {
    let c = v.at("cycleDeVie"@);
    let e = c.at("etatDesTraitements"@);
    or_else(
        c.at("sort"@).text(),
        or_else(
            c.at("sort"@).at("value"@).text(),
            or_else(
                e.at("sousEtat"@).at("libelle"@).text(),
                or_else(
                    e.at("sousEtat"@).at("code"@).text(),
                    or_else(e.at("etat"@).at("libelle"@).text(), e.at("etat"@).at("code"@).text()),
                ),
            ),
        ),
    )
}

/// An outcome says that the amendment was adopted when it holds `adopt`,
/// whatever the case, or is the code `29`.
pub open spec fn says_adopted(sort: Option<Seq<char>>) -> bool {
    match sort {
        Some(s) => names_adoption(lowercase_of(s)),
        None => false,
    }
}

/// An outcome in lower case holds `adopt` or is the code `29`.
pub open spec fn names_adoption(lower: Seq<char>) -> bool {
    contains_text(lower, "adopt"@) || lower == "29"@
}

/// Whether an outcome, given in lower case, says that the amendment was
/// adopted.
pub fn outcome_is_adoption(lower: &str) -> (r: bool)
    ensures
        r == names_adoption(lower@),
{
    chars_contains(&chars_of(lower), &chars_of("adopt")) || str_eq(lower, "29")
}

pub open spec fn date_at(v: Json, key: Seq<char>) -> Option<Date> {
    match text_at(v, key) {
        Some(t) => date_of(t),
        None => None,
    }
}

/// The first date among the texts of the members.
pub open spec fn first_date_among(entries: Seq<(String, Json)>) -> Option<Date>
    decreases entries.len(),
{
    if entries.len() == 0 {
        None
    } else {
        let here = match entries[0].1.text() {
            Some(t) => date_of(t),
            None => None,
        };
        match here {
            Some(d) => Some(d),
            None => first_date_among(entries.skip(1)),
        }
    }
}

/// The date that an amendment goes by: that of deposit, circulation,
/// outcome or examination, whichever is there first, else any date among
/// the texts of its life cycle.
pub open spec fn amendement_date(v: Json) -> Option<Date> {
    let c = v.at("cycleDeVie"@);
    or_else(
        date_at(c, "dateDepot"@),
        or_else(
            date_at(c, "dateCirculation"@),
            or_else(
                date_at(c, "dateSort"@),
                or_else(
                    date_at(c, "dateExamen"@),
                    match c {
                        Json::Object(entries) => first_date_among(entries@),
                        _ => None,
                    },
                ),
            ),
        ),
    )
}

/// The rationale of an amendment, made plain and cut; none where nothing
/// is left of it.
pub open spec fn amendement_expose(v: Json) -> Option<Seq<char>> {
    match or_else(
        text_at(v, "exposeSommaire"@),
        v.at("corps"@).at("contenuAuteur"@).at("exposeSommaire"@).text(),
    ) {
        Some(raw) => if expose_sommaire(raw, EXPOSE_MAX_CHARS as nat).len() > 0 {
            Some(expose_sommaire(raw, EXPOSE_MAX_CHARS as nat))
        } else {
            None
        },
        None => None,
    }
}

/// The amendment is that of the record.
pub open spec fn is_amendement(a: Amendement, v: Json) -> bool {
    let p = v.at("pointeurFragmentTexte"@);
    let s = v.at("signataires"@);
    let c = v.at("cycleDeVie"@);
    &&& Some(a.id@) == text_at(v, "uid"@)
    &&& opt_text(a.numero) == v.at("identificatif"@).at("numero"@).text()
    &&& opt_text(a.auteur_id) == or_else(
        s.at("auteur"@).at("acteurRef"@).text(),
        s.at("signataire"@).at("acteurRef"@).text(),
    )
    &&& opt_text(a.auteur_type) == or_else(
        s.at("auteur"@).at("typeAuteur"@).text(),
        s.at("signataire"@).at("typeAuteur"@).text(),
    )
    &&& is_sorted_set(a.cosignataires_ids@, amendement_cosigners(v))
    &&& opt_text(a.sort) == amendement_sort(v)
    &&& a.adopte == says_adopted(amendement_sort(v))
    &&& a.date == amendement_date(v)
    &&& a.date_depot == date_at(c, "dateDepot"@)
    &&& a.date_circulation == date_at(c, "dateCirculation"@)
    &&& a.date_examen == date_at(c, "dateExamen"@)
    &&& a.date_sort == date_at(c, "dateSort"@)
    &&& opt_text(a.dossier_ref) == or_else(
        text_at(v, "dossierRef"@),
        p.at("texteLegislatifRef"@).text(),
    )
    &&& opt_text(a.article) == p.at("division"@).at("titre"@).text()
    &&& opt_text(a.texte_ref) == p.at("texteLegislatifRef"@).text()
    &&& opt_text(a.mission_visee) == p.at("missionVisee"@).at("libelleMission"@).text()
    &&& opt_text(a.mission_ref) == p.at("missionVisee"@).at("missionRef"@).text()
    &&& opt_text(a.expose_sommaire) == amendement_expose(v)
}

fn string_or(a: &Json, b: &Json) -> (r: Option<String>)
    ensures
        opt_text(r) == or_else(a.text(), b.text()),
{
    match a.string() {
        Some(s) => Some(s),
        None => b.string(),
    }
}

fn date_member(v: &Json, key: &str) -> (r: Option<Date>)
    ensures
        r == date_at(*v, key@),
{
    match v.get(key).as_str() {
        Some(t) => parse_date(t.as_str()),
        None => None,
    }
}

fn any_date(entries: &Vec<(String, Json)>) -> (r: Option<Date>)
    ensures
        r == first_date_among(entries@),
{
    let mut i: usize = 0;
    assert(entries@.skip(0) == entries@);
    while i < entries.len()
        invariant
            i <= entries@.len(),
            first_date_among(entries@) == first_date_among(entries@.skip(i as int)),
        decreases entries@.len() - i,
    {
        assert(entries@.skip(i as int)[0] == entries@[i as int]);
        match entries[i].1.as_str() {
            Some(t) => match parse_date(t.as_str()) {
                Some(d) => {
                    return Some(d);
                },
                None => {},
            },
            None => {},
        }
        assert(entries@.skip(i as int).skip(1) == entries@.skip(i + 1));
        i += 1;
    }
    None
}

fn sort_of_amendement(v: &Json) -> (r: Option<String>)
    ensures
        opt_text(r) == amendement_sort(*v),
{
    let c = v.get("cycleDeVie");
    let e = c.get("etatDesTraitements");
    match string_or(c.get("sort"), c.get("sort").get("value")) {
        Some(s) => Some(s),
        None => match string_or(
            e.get("sousEtat").get("libelle"),
            e.get("sousEtat").get("code"),
        ) {
            Some(s) => Some(s),
            None => string_or(e.get("etat").get("libelle"), e.get("etat").get("code")),
        },
    }
}

fn cosigners_of_amendement(v: &Json) -> (raw: Vec<String>)
    ensures
        texts(raw@) == amendement_cosigners(*v),
{
    let c = v.get("signataires").get("cosignataires");
    let mut raw: Vec<String> = Vec::new();
    assert(texts(raw@) =~= Seq::<Seq<char>>::empty());
    add_refs(&mut raw, c.get("acteurRef"));
    assert(Seq::<Seq<char>>::empty() + refs_of(c.at("acteurRef"@)) == refs_of(c.at("acteurRef"@)));
    if raw.len() > 0 {
        return raw;
    }
    let records = one_or_many(c.get("cosignataire"));
    let ghost items = c.at("cosignataire"@).items();
    let ghost f = cosigner_ref();
    let mut i: usize = 0;
    assert(texts(raw@) =~= flat(items.take(0), f));
    while i < records.len()
        invariant
            i <= records@.len(),
            records@.len() == items.len(),
            forall|k: int| 0 <= k < records@.len() ==> *(#[trigger] records@[k]) == items[k],
            f == cosigner_ref(),
            texts(raw@) == flat(items.take(i as int), f),
        decreases records@.len() - i,
    {
        let ghost before = raw@;
        proof {
            lemma_flat_step(items, i as int, f);
        }
        match records[i].get("acteurRef").string() {
            Some(s) => {
                raw.push(s);
                assert(texts(raw@) =~= texts(before) + seq![s@]);
            },
            None => {
                assert(texts(before) + Seq::<Seq<char>>::empty() == texts(before));
            },
        }
        i += 1;
    }
    assert(items.take(items.len() as int) == items);
    raw
}

/// Reads an amendment: a record with an id.
pub fn parse_amendement(v: &Json) -> (r: Option<Amendement>)
    ensures
        r is Some <==> text_at(*v, "uid"@) is Some,
        r matches Some(a) ==> is_amendement(a, *v),
{
    let id = match v.get("uid").string() {
        Some(s) => s,
        None => {
            return None;
        },
    };
    let p = v.get("pointeurFragmentTexte");
    let s = v.get("signataires");
    let c = v.get("cycleDeVie");
    let sort = sort_of_amendement(v);
    let adopte = match &sort {
        Some(text) => outcome_is_adoption(str_to_lowercase(text.as_str()).as_str()),
        None => false,
    };
    let date_depot = date_member(c, "dateDepot");
    let date_circulation = date_member(c, "dateCirculation");
    let date_sort = date_member(c, "dateSort");
    let date_examen = date_member(c, "dateExamen");
    let date = match date_depot {
        Some(d) => Some(d),
        None => match date_circulation {
            Some(d) => Some(d),
            None => match date_sort {
                Some(d) => Some(d),
                None => match date_examen {
                    Some(d) => Some(d),
                    None => match c {
                        Json::Object(entries) => any_date(entries),
                        _ => None,
                    },
                },
            },
        },
    };
    let raw_expose = string_or(
        v.get("exposeSommaire"),
        v.get("corps").get("contenuAuteur").get("exposeSommaire"),
    );
    let expose_sommaire = match raw_expose {
        Some(raw) => {
            let plain = normalize_expose_sommaire(raw.as_str(), EXPOSE_MAX_CHARS);
            if plain.as_str().is_empty() {
                None
            } else {
                Some(plain)
            }
        },
        None => None,
    };
    Some(
        Amendement {
            id,
            numero: v.get("identificatif").get("numero").string(),
            auteur_id: string_or(
                s.get("auteur").get("acteurRef"),
                s.get("signataire").get("acteurRef"),
            ),
            auteur_type: string_or(
                s.get("auteur").get("typeAuteur"),
                s.get("signataire").get("typeAuteur"),
            ),
            cosignataires_ids: sorted_set(&cosigners_of_amendement(v)),
            sort,
            date,
            date_depot,
            date_circulation,
            date_examen,
            date_sort,
            dossier_ref: string_or(v.get("dossierRef"), p.get("texteLegislatifRef")),
            article: p.get("division").get("titre").string(),
            texte_ref: p.get("texteLegislatifRef").string(),
            adopte,
            mission_visee: p.get("missionVisee").get("libelleMission").string(),
            mission_ref: p.get("missionVisee").get("missionRef").string(),
            expose_sommaire,
        },
    )
}

/// How deep a document is searched for references.
pub const MAX_DEPTH: usize = 128;

/// The references to actors that a value holds anywhere, down to `depth`
/// levels: what stands under the key `acteurRef`, in the order of the
/// document.
pub open spec fn actor_refs(v: Json, depth: nat) -> Seq<Seq<char>>
    decreases depth, 0nat,
{
    if depth == 0 {
        Seq::empty()
    } else {
        match v {
            Json::Object(entries) => member_refs(entries@, (depth - 1) as nat),
            Json::Array(items) => item_refs(items@, (depth - 1) as nat),
            _ => Seq::empty(),
        }
    }
}

pub open spec fn member_refs(entries: Seq<(String, Json)>, depth: nat) -> Seq<Seq<char>>
    decreases depth, entries.len() + 1,
{
    if entries.len() == 0 {
        Seq::empty()
    } else {
        member_refs(entries.drop_last(), depth) + if entries.last().0@ == "acteurRef"@ {
            refs_of(entries.last().1)
        } else {
            actor_refs(entries.last().1, depth)
        }
    }
}

pub open spec fn item_refs(items: Seq<Json>, depth: nat) -> Seq<Seq<char>>
    decreases depth, items.len() + 1,
{
    if items.len() == 0 {
        Seq::empty()
    } else {
        item_refs(items.drop_last(), depth) + actor_refs(items.last(), depth)
    }
}

fn collect_refs(v: &Json, out: &mut Vec<String>, depth: usize)
    ensures
        texts(final(out)@) == texts(old(out)@) + actor_refs(*v, depth as nat),
    decreases depth,
{
    let ghost before = texts(out@);
    if depth == 0 {
        assert(before + Seq::<Seq<char>>::empty() == before);
        return ;
    }
    match v {
        Json::Object(entries) => {
            let mut i: usize = 0;
            assert(before + member_refs(entries@.take(0), (depth - 1) as nat) == before);
            while i < entries.len()
                invariant
                    i <= entries@.len(),
                    depth > 0,
                    texts(out@) == before + member_refs(entries@.take(i as int), (depth - 1) as nat),
                decreases entries@.len() - i,
            {
                let ghost so_far = texts(out@);
                let ghost head = member_refs(entries@.take(i as int), (depth - 1) as nat);
                proof {
                    assert(entries@.take(i + 1).drop_last() == entries@.take(i as int));
                    assert(entries@.take(i + 1).last() == entries@[i as int]);
                }
                if str_eq(entries[i].0.as_str(), "acteurRef") {
                    add_refs(out, &entries[i].1);
                    assert(before + (head + refs_of(entries@[i as int].1)) == so_far + refs_of(
                        entries@[i as int].1,
                    ));
                } else {
                    collect_refs(&entries[i].1, out, depth - 1);
                    assert(before + (head + actor_refs(entries@[i as int].1, (depth - 1) as nat))
                        == so_far + actor_refs(entries@[i as int].1, (depth - 1) as nat));
                }
                i += 1;
            }
            assert(entries@.take(entries@.len() as int) == entries@);
        },
        Json::Array(items) => {
            let mut i: usize = 0;
            assert(before + item_refs(items@.take(0), (depth - 1) as nat) == before);
            while i < items.len()
                invariant
                    i <= items@.len(),
                    depth > 0,
                    texts(out@) == before + item_refs(items@.take(i as int), (depth - 1) as nat),
                decreases items@.len() - i,
            {
                let ghost so_far = texts(out@);
                let ghost head = item_refs(items@.take(i as int), (depth - 1) as nat);
                proof {
                    assert(items@.take(i + 1).drop_last() == items@.take(i as int));
                    assert(items@.take(i + 1).last() == items@[i as int]);
                }
                collect_refs(&items[i], out, depth - 1);
                assert(before + (head + actor_refs(items@[i as int], (depth - 1) as nat)) == so_far
                    + actor_refs(items@[i as int], (depth - 1) as nat));
                i += 1;
            }
            assert(items@.take(items@.len() as int) == items@);
        },
        _ => {
            assert(before + Seq::<Seq<char>>::empty() == before);
        },
    }
}

/// Appends the references to actors that a value holds anywhere.
pub fn collect_actor_refs_from_value(v: &Json, out: &mut Vec<String>)
    ensures
        texts(final(out)@) == texts(old(out)@) + actor_refs(*v, MAX_DEPTH as nat),
{
    collect_refs(v, out, MAX_DEPTH);
}

/// A trimmed text, unless it is blank.
pub open spec fn filled(s: Option<Seq<char>>) -> Option<Seq<char>> {
    match s {
        Some(t) => if trim(t).len() > 0 {
            Some(trim(t))
        } else {
            None
        },
        None => None,
    }
}

fn filled_string(v: &Json) -> (r: Option<String>)
    ensures
        opt_text(r) == filled(v.text()),
{
    match v.as_str() {
        Some(s) => {
            let t = chars_trim(&chars_of(s.as_str()));
            if t.len() > 0 {
                Some(text_of(&t))
            } else {
                None
            }
        },
        None => None,
    }
}

/// The id of the first body that a value refers to anywhere, down to
/// `depth` levels: what stands under the key `organeRef`, as a text, as
/// the `uid` of an object, or in an array.
pub open spec fn first_organe(v: Json, depth: nat) -> Option<Seq<char>>
    decreases depth, 0nat, 0nat,
{
    if depth == 0 {
        None
    } else {
        match v {
            Json::Object(entries) => first_in_members(entries@, (depth - 1) as nat),
            Json::Array(items) => first_in_items(items@, (depth - 1) as nat),
            _ => None,
        }
    }
}

pub open spec fn first_in_items(items: Seq<Json>, depth: nat) -> Option<Seq<char>>
    decreases depth, 1nat, items.len(),
{
    if items.len() == 0 {
        None
    } else {
        match first_organe(items[0], depth) {
            Some(id) => Some(id),
            None => first_in_items(items.skip(1), depth),
        }
    }
}

/// What a member under the key `organeRef` names directly.
pub open spec fn named_organe(val: Json, depth: nat) -> Option<Seq<char>>
    decreases depth, 2nat, 0nat,
{
    match val {
        Json::Str(s) => filled(Some(s@)),
        Json::Object(_) => filled(val.at("uid"@).text()),
        Json::Array(items) => first_in_items(items@, depth),
        _ => None,
    }
}

pub open spec fn first_in_members(entries: Seq<(String, Json)>, depth: nat) -> Option<Seq<char>>
    decreases depth, 3nat, entries.len(),
{
    if entries.len() == 0 {
        None
    } else {
        let named = if entries[0].0@ == "organeRef"@ {
            named_organe(entries[0].1, depth)
        } else {
            None
        };
        match or_else(named, first_organe(entries[0].1, depth)) {
            Some(id) => Some(id),
            None => first_in_members(entries.skip(1), depth),
        }
    }
}

fn first_among(items: &Vec<Json>, depth: usize) -> (r: Option<String>)
    ensures
        opt_text(r) == first_in_items(items@, depth as nat),
    decreases depth, 1nat,
{
    let mut i: usize = 0;
    assert(items@.skip(0) == items@);
    while i < items.len()
        invariant
            i <= items@.len(),
            first_in_items(items@, depth as nat) == first_in_items(
                items@.skip(i as int),
                depth as nat,
            ),
        decreases items@.len() - i,
    {
        assert(items@.skip(i as int)[0] == items@[i as int]);
        match first_organe_ref(&items[i], depth) {
            Some(id) => {
                return Some(id);
            },
            None => {},
        }
        assert(items@.skip(i as int).skip(1) == items@.skip(i + 1));
        i += 1;
    }
    None
}

fn named_ref(val: &Json, depth: usize) -> (r: Option<String>)
    ensures
        opt_text(r) == named_organe(*val, depth as nat),
    decreases depth, 2nat,
{
    match val {
        Json::Str(_) => filled_string(val),
        Json::Object(_) => filled_string(val.get("uid")),
        Json::Array(items) => first_among(items, depth),
        _ => None,
    }
}

fn first_organe_ref(v: &Json, depth: usize) -> (r: Option<String>)
    ensures
        opt_text(r) == first_organe(*v, depth as nat),
    decreases depth, 0nat,
{
    if depth == 0 {
        return None;
    }
    match v {
        Json::Object(entries) => {
            let mut i: usize = 0;
            assert(entries@.skip(0) == entries@);
            while i < entries.len()
                invariant
                    i <= entries@.len(),
                    depth > 0,
                    first_organe(*v, depth as nat) == first_in_members(
                        entries@,
                        (depth - 1) as nat,
                    ),
                    first_in_members(entries@, (depth - 1) as nat) == first_in_members(
                        entries@.skip(i as int),
                        (depth - 1) as nat,
                    ),
                decreases entries@.len() - i,
            {
                let ghost rest = entries@.skip(i as int);
                assert(rest[0] == entries@[i as int]);
                let val = &entries[i].1;
                let named = if str_eq(entries[i].0.as_str(), "organeRef") {
                    named_ref(val, depth - 1)
                } else {
                    None
                };
                let found = match named {
                    Some(id) => Some(id),
                    None => first_organe_ref(val, depth - 1),
                };
                proof {
                    let d = (depth - 1) as nat;
                    let spec_named = if rest[0].0@ == "organeRef"@ {
                        named_organe(rest[0].1, d)
                    } else {
                        None
                    };
                    assert(opt_text(found) == or_else(spec_named, first_organe(rest[0].1, d)));
                    assert(rest.skip(1) == entries@.skip(i + 1));
                }
                match found {
                    Some(id) => {
                        return Some(id);
                    },
                    None => {},
                }
                i += 1;
            }
            None
        },
        Json::Array(items) => first_among(items, depth - 1),
        _ => None,
    }
}

/// The id of the first body that a value refers to anywhere.
pub fn first_organe_ref_uid(v: &Json) -> (r: Option<String>)
    ensures
        opt_text(r) == first_organe(*v, MAX_DEPTH as nat),
{
    first_organe_ref(v, MAX_DEPTH)
}

/// The id of the senate among the bodies.
pub open spec fn senate_id() -> Seq<char> {
    "PO78718"@
}

/// The chamber that a legislative file comes from: the senate where the
/// file has a path at the senate or the senate initiated it, else the
/// assembly.
pub open spec fn origin_of(v: Json) -> Seq<char> {
    if filled(v.at("titreDossier"@).at("senatChemin"@).text()) is Some || first_organe(
        v.at("initiateur"@),
        MAX_DEPTH as nat,
    ) == Some(senate_id()) {
        "senat"@
    } else {
        "assemblee"@
    }
}

/// The chamber of origin of a legislative file and the body that initiated
/// it.
pub fn detect_dossier_origin(v: &Json) -> (r: (Option<String>, Option<String>))
    ensures
        opt_text(r.0) == Some(origin_of(*v)),
        opt_text(r.1) == first_organe(v.at("initiateur"@), MAX_DEPTH as nat),
{
    let initiateur = first_organe_ref_uid(v.get("initiateur"));
    let chemin = filled_string(v.get("titreDossier").get("senatChemin"));
    let by_senate = match &initiateur {
        Some(id) => str_eq(id.as_str(), "PO78718"),
        None => false,
    };
    let origin = if chemin.is_some() || by_senate {
        "senat".to_string()
    } else {
        "assemblee".to_string()
    };
    (Some(origin), initiateur)
}

/// The author and the co-signers of a file, as far as they are known.
pub struct Signers {
    pub author: Option<Seq<char>>,
    pub cosigners: Seq<Seq<char>>,
}

/// Where no author is known yet, the first of the references becomes the
/// author and the others join the co-signers.
pub open spec fn with_refs(s: Signers, refs: Seq<Seq<char>>) -> Signers {
    if s.author is None && refs.len() > 0 {
        Signers { author: Some(refs[0]), cosigners: s.cosigners + refs.skip(1) }
    } else {
        s
    }
}

/// The references to actors below a member, each once.
pub open spec fn block_refs(v: Json, key: Seq<char>) -> Seq<Seq<char>> {
    dedup_refs(actor_refs(v.at(key), MAX_DEPTH as nat))
}

pub open spec fn filled_cosigner() -> spec_fn(Json) -> Seq<Seq<char>> {
    |c: Json|
        match filled(text_at(c, "acteurRef"@)) {
            Some(s) => seq![s],
            None => Seq::empty(),
        }
}

/// The signers that the record of a file names under `signataires`.
pub open spec fn named_signers(v: Json) -> Signers {
    let s = v.at("signataires"@);
    let c = s.at("cosignataires"@);
    Signers {
        author: filled(s.at("auteur"@).at("acteurRef"@).text()),
        cosigners: if refs_of(c.at("acteurRef"@)).len() > 0 {
            refs_of(c.at("acteurRef"@))
        } else {
            flat(c.at("cosignataire"@).items(), filled_cosigner())
        },
    }
}

/// The signers of a file before the co-signers are cleaned: those named,
/// and where no author is named, the references found under `auteurs`,
/// then `signataires`, then `initiateur`.
pub open spec fn found_signers(v: Json) -> Signers {
    with_refs(
        with_refs(
            with_refs(named_signers(v), block_refs(v, "auteurs"@)),
            block_refs(v, "signataires"@),
        ),
        block_refs(v, "initiateur"@),
    )
}

/// The texts of the list other than `x`.
pub open spec fn without(s: Seq<Seq<char>>, x: Seq<char>) -> Seq<Seq<char>>
    decreases s.len(),
{
    if s.len() == 0 {
        s
    } else if s.last() == x {
        without(s.drop_last(), x)
    } else {
        without(s.drop_last(), x).push(s.last())
    }
}

/// The co-signers of a file: each once, the author left out.
pub open spec fn dossier_cosigners(v: Json) -> Seq<Seq<char>> {
    let found = found_signers(v);
    match found.author {
        Some(a) => without(dedup_refs(found.cosigners), a),
        None => dedup_refs(found.cosigners),
    }
}

fn take_refs(author: &mut Option<String>, cosigners: &mut Vec<String>, block: &Json, Ghost(s): Ghost<Signers>)
    requires
        opt_text(*old(author)) == s.author,
        texts(old(cosigners)@) == s.cosigners,
    ensures
        opt_text(*final(author)) == with_refs(
            s,
            dedup_refs(actor_refs(*block, MAX_DEPTH as nat)),
        ).author,
        texts(final(cosigners)@) == with_refs(
            s,
            dedup_refs(actor_refs(*block, MAX_DEPTH as nat)),
        ).cosigners,
{
    if author.is_some() {
        return ;
    }
    let mut refs: Vec<String> = Vec::new();
    assert(texts(refs@) =~= Seq::<Seq<char>>::empty());
    collect_actor_refs_from_value(block, &mut refs);
    assert(Seq::<Seq<char>>::empty() + actor_refs(*block, MAX_DEPTH as nat) == actor_refs(
        *block,
        MAX_DEPTH as nat,
    ));
    dedup_actor_refs_keep_order(&mut refs);
    if refs.len() == 0 {
        return ;
    }
    let ghost found = texts(refs@);
    *author = Some(refs[0].clone());
    let ghost before = texts(cosigners@);
    let mut i: usize = 1;
    assert(before + found.subrange(1, 1) == before);
    while i < refs.len()
        invariant
            1 <= i <= refs@.len(),
            found == texts(refs@),
            texts(cosigners@) == before + found.subrange(1, i as int),
        decreases refs@.len() - i,
    {
        let ghost so_far = cosigners@;
        cosigners.push(refs[i].clone());
        proof {
            assert(texts(cosigners@) =~= texts(so_far).push(found[i as int]));
            assert(found.subrange(1, i + 1) == found.subrange(1, i as int).push(found[i as int]));
            assert(before + found.subrange(1, i as int).push(found[i as int]) == (before
                + found.subrange(1, i as int)).push(found[i as int]));
        }
        i += 1;
    }
    assert(found.subrange(1, found.len() as int) == found.skip(1));
}

/// The author and the co-signers of a legislative file.
pub fn parse_dossier_signers(v: &Json) -> (r: (Option<String>, Vec<String>))
    ensures
        opt_text(r.0) == found_signers(*v).author,
        texts(r.1@) == dossier_cosigners(*v),
{
    let s = v.get("signataires");
    let c = s.get("cosignataires");
    let mut author = filled_string(s.get("auteur").get("acteurRef"));
    let mut cosigners: Vec<String> = Vec::new();
    assert(texts(cosigners@) =~= Seq::<Seq<char>>::empty());
    add_refs(&mut cosigners, c.get("acteurRef"));
    assert(Seq::<Seq<char>>::empty() + refs_of(c.at("acteurRef"@)) == refs_of(c.at("acteurRef"@)));
    if cosigners.len() == 0 {
        let records = one_or_many(c.get("cosignataire"));
        let ghost items = c.at("cosignataire"@).items();
        let ghost f = filled_cosigner();
        let mut i: usize = 0;
        assert(texts(cosigners@) =~= flat(items.take(0), f));
        while i < records.len()
            invariant
                i <= records@.len(),
                records@.len() == items.len(),
                forall|k: int| 0 <= k < records@.len() ==> *(#[trigger] records@[k]) == items[k],
                f == filled_cosigner(),
                texts(cosigners@) == flat(items.take(i as int), f),
            decreases records@.len() - i,
        {
            let ghost before = cosigners@;
            proof {
                lemma_flat_step(items, i as int, f);
            }
            match filled_string(records[i].get("acteurRef")) {
                Some(id) => {
                    cosigners.push(id);
                    assert(texts(cosigners@) =~= texts(before) + seq![id@]);
                },
                None => {
                    assert(texts(before) + Seq::<Seq<char>>::empty() == texts(before));
                },
            }
            i += 1;
        }
        assert(items.take(items.len() as int) == items);
    }
    let ghost s0 = named_signers(*v);
    take_refs(&mut author, &mut cosigners, v.get("auteurs"), Ghost(s0));
    let ghost s1 = with_refs(s0, block_refs(*v, "auteurs"@));
    take_refs(&mut author, &mut cosigners, v.get("signataires"), Ghost(s1));
    let ghost s2 = with_refs(s1, block_refs(*v, "signataires"@));
    take_refs(&mut author, &mut cosigners, v.get("initiateur"), Ghost(s2));
    dedup_actor_refs_keep_order(&mut cosigners);
    let kept = match &author {
        Some(a) => {
            let mut kept: Vec<String> = Vec::new();
            let ghost all = texts(cosigners@);
            let mut i: usize = 0;
            assert(texts(kept@) =~= without(all.take(0), a@));
            while i < cosigners.len()
                invariant
                    i <= cosigners@.len(),
                    all == texts(cosigners@),
                    texts(kept@) == without(all.take(i as int), a@),
                decreases cosigners@.len() - i,
            {
                let ghost before = kept@;
                proof {
                    assert(all.take(i + 1).drop_last() == all.take(i as int));
                    assert(all.take(i + 1).last() == all[i as int]);
                }
                if !(cosigners[i] == *a) {
                    kept.push(cosigners[i].clone());
                    assert(texts(kept@) =~= texts(before).push(all[i as int]));
                }
                i += 1;
            }
            assert(all.take(all.len() as int) == all);
            kept
        },
        None => cosigners,
    };
    (author, kept)
}

/// The file is that of the record.
pub open spec fn is_dossier(d: Dossier, v: Json) -> bool {
    let t = v.at("titreDossier"@);
    &&& Some(d.id@) == text_at(v, "uid"@)
    &&& d.titre@ == match or_else(
        match text_at(t, "titre"@) {
            Some(s) => if s.len() > 0 {
                Some(s)
            } else {
                None
            },
            None => None,
        },
        text_at(v, "titre"@),
    ) {
        Some(s) => s,
        None => Seq::empty(),
    }
    &&& d.date_depot == or_else(date_at(t, "dateDepot"@), date_at(v, "dateDepot"@))
    &&& opt_text(d.statut) == v.at("procedureParlementaire"@).at("libelle"@).text()
    &&& opt_text(d.legislature) == text_at(v, "legislature"@)
    &&& opt_text(d.nature) == or_else(text_at(v, "nature"@), text_at(t, "titreChemin"@))
    &&& opt_text(d.numero) == or_else(
        text_at(v, "numero"@),
        or_else(text_at(t, "numero"@), v.at("reference"@).at("numero"@).text()),
    )
    &&& opt_text(d.source_url) == or_else(
        text_at(v, "urlDossier"@),
        v.at("liens"@).at("lien"@).at("url"@).text(),
    )
    &&& opt_text(d.origin_chamber) == Some(origin_of(v))
    &&& opt_text(d.initiateur_organe_ref) == first_organe(v.at("initiateur"@), MAX_DEPTH as nat)
    &&& opt_text(d.auteur_id) == found_signers(v).author
    &&& texts(d.cosignataires_ids@) == dossier_cosigners(v)
}

/// Reads a legislative file: a record with an id.
pub fn parse_dossier(v: &Json) -> (r: Option<Dossier>)
    ensures
        r is Some <==> text_at(*v, "uid"@) is Some,
        r matches Some(d) ==> is_dossier(d, *v),
{
    let id = match v.get("uid").string() {
        Some(s) => s,
        None => {
            return None;
        },
    };
    let t = v.get("titreDossier");
    let own_title = match t.get("titre").as_str() {
        Some(s) => if s.as_str().is_empty() {
            None
        } else {
            Some(s.clone())
        },
        None => None,
    };
    let titre = match own_title {
        Some(s) => s,
        None => match v.get("titre").string() {
            Some(s) => s,
            None => String::new(),
        },
    };
    let date_depot = match date_member(t, "dateDepot") {
        Some(d) => Some(d),
        None => date_member(v, "dateDepot"),
    };
    let numero = match v.get("numero").string() {
        Some(s) => Some(s),
        None => string_or(t.get("numero"), v.get("reference").get("numero")),
    };
    let origin = detect_dossier_origin(v);
    let signers = parse_dossier_signers(v);
    Some(
        Dossier {
            id,
            titre,
            date_depot,
            statut: v.get("procedureParlementaire").get("libelle").string(),
            legislature: v.get("legislature").string(),
            nature: string_or(v.get("nature"), t.get("titreChemin")),
            numero,
            auteur_id: signers.0,
            cosignataires_ids: signers.1,
            source_url: string_or(v.get("urlDossier"), v.get("liens").get("lien").get("url")),
            origin_chamber: origin.0,
            initiateur_organe_ref: origin.1,
        },
    )
}

/// The label of the sex that a value gives.
pub open spec fn sexe_from(x: Json) -> Option<Seq<char>> {
    match x.filled_textish() {
        Some(s) => sexe_label(s),
        None => None,
    }
}

/// The profession of a representative: the current label, else the
/// profession of the list, as a label; none where the label is blank.
pub open spec fn profession_of(v: Json) -> Option<Seq<char>> {
    match or_else(
        v.at("profession"@).at("libelleCourant"@).text(),
        v.at("professions"@).at("profession"@).text(),
    ) {
        Some(raw) => if trim(profession_label(raw)).len() > 0 {
            Some(profession_label(raw))
        } else {
            None
        },
        None => None,
    }
}

/// The address of the declaration of interests, made absolute.
pub open spec fn hatvp_of(v: Json) -> Option<Seq<char>> {
    match v.at("uri_hatvp"@).filled_text() {
        Some(u) => if urlish(u).len() > 0 {
            Some(urlish(u))
        } else {
            None
        },
        None => None,
    }
}

/// The addresses of the record of a representative.
pub open spec fn addresses_of(v: Json) -> Seq<Json> {
    v.at("adresses"@).at("adresse"@).items()
}

/// What the mandates of the record of a representative give.
pub open spec fn mandates_of(v: Json, organes: Seq<Organe>) -> MandateState {
    scan_mandates(v.at("mandats"@).at("mandat"@).items(), organes)
}

/// The representative is that of the record, read against the bodies.
pub open spec fn is_depute(d: Depute, v: Json, organes: Seq<Organe>) -> bool {
    let ident = v.at("etatCivil"@).at("ident"@);
    let born = v.at("etatCivil"@).at("infoNaissance"@);
    let born_known = v.at("etatCivil"@).at("infoNaissKnown"@);
    let st = mandates_of(v, organes);
    let adrs = addresses_of(v);
    &&& Some(d.id@) == uid_of(v)
    &&& d.nom@ == match text_at(ident, "nom"@) {
        Some(s) => s,
        None => Seq::empty(),
    }
    &&& d.prenom@ == match text_at(ident, "prenom"@) {
        Some(s) => s,
        None => Seq::empty(),
    }
    &&& d.date_naissance == or_else(date_at(born, "dateNais"@), date_at(born_known, "dateNais"@))
    &&& opt_text(d.sexe) == or_else(sexe_from(ident.at("sexe"@)), sexe_from(ident.at("civ"@)))
    &&& opt_text(d.pays_naissance) == or_else(
        born.at("paysNais"@).filled_textish(),
        born_known.at("paysNais"@).filled_textish(),
    )
    &&& opt_text(d.profession) == profession_of(v)
    &&& opt_text(d.uri_hatvp) == hatvp_of(v)
    &&& opt_text(d.email_assemblee) == email_of(adrs)
    &&& texts(d.telephones@) == telephones_of(adrs)
    &&& texts(d.sites_web@) == site_urls(adrs)
    &&& opt_text(d.site_web) == if site_urls(adrs).len() > 0 {
        Some(site_urls(adrs)[0])
    } else {
        None
    }
    &&& source_views(d.sites_web_sources@) == site_sources(adrs)
    &&& opt_text(d.dept_code) == st.dept_code
    &&& opt_text(d.dept_nom) == st.dept_nom
    &&& opt_text(d.circo) == st.circo
    &&& d.mandat_debut == st.debut
    &&& d.mandat_fin == st.fin
    &&& d.mandat_assemblee_episodes@ == episodes_of(st.windows)
    &&& d.mandat_debut_legislature == if episodes_of(st.windows).len() > 0 {
        Some(episodes_of(st.windows)[0].date_debut)
    } else {
        st.debut
    }
    &&& opt_text(d.groupe_id) == st.groupe_id
    &&& opt_text(d.groupe_abrev) == st.groupe_abrev
    &&& opt_text(d.groupe_nom) == st.groupe_nom
    &&& opt_text(d.parti_id) == st.parti_id
    &&& opt_text(d.parti_nom) == st.parti_nom
}

fn sexe_of(x: &Json) -> (r: Option<String>)
    ensures
        opt_text(r) == sexe_from(*x),
{
    match x.opt_non_empty_textish() {
        Some(s) => normalize_sexe_label(s.as_str()),
        None => None,
    }
}

fn profession(v: &Json) -> (r: Option<String>)
    ensures
        opt_text(r) == profession_of(*v),
{
    match string_or(
        v.get("profession").get("libelleCourant"),
        v.get("professions").get("profession"),
    ) {
        Some(raw) => {
            let label = normalize_profession_label(raw.as_str());
            if chars_trim(&chars_of(label.as_str())).len() > 0 {
                Some(label)
            } else {
                None
            }
        },
        None => None,
    }
}

fn hatvp(v: &Json) -> (r: Option<String>)
    ensures
        opt_text(r) == hatvp_of(*v),
{
    match v.get("uri_hatvp").opt_non_empty_str() {
        Some(u) => {
            let url = normalize_urlish(u.as_str());
            if url.as_str().is_empty() {
                None
            } else {
                Some(url)
            }
        },
        None => None,
    }
}

/// Reads a representative: a record with an id. The group and the party
/// are looked up among the bodies.
pub fn parse_depute(v: &Json, organes: &Vec<Organe>) -> (r: Option<Depute>)
    ensures
        r is Some <==> uid_of(*v) is Some,
        r matches Some(d) ==> is_depute(d, *v, organes@),
{
    let id = match uid(v) {
        Some(s) => s,
        None => {
            return None;
        },
    };
    let ident = v.get("etatCivil").get("ident");
    let born = v.get("etatCivil").get("infoNaissance");
    let born_known = v.get("etatCivil").get("infoNaissKnown");
    let nom = match ident.get("nom").string() {
        Some(s) => s,
        None => String::new(),
    };
    let prenom = match ident.get("prenom").string() {
        Some(s) => s,
        None => String::new(),
    };
    let date_naissance = match date_member(born, "dateNais") {
        Some(d) => Some(d),
        None => date_member(born_known, "dateNais"),
    };
    let sexe = match sexe_of(ident.get("sexe")) {
        Some(s) => Some(s),
        None => sexe_of(ident.get("civ")),
    };
    let pays_naissance = match born.get("paysNais").opt_non_empty_textish() {
        Some(s) => Some(s),
        None => born_known.get("paysNais").opt_non_empty_textish(),
    };
    let contact = read_contact(v);
    let mandats = one_or_many(v.get("mandats").get("mandat"));
    let st = read_mandates(&mandats, organes, Ghost(v.at("mandats"@).at("mandat"@).items()));
    let episodes = read_episodes(&st.windows);
    let mandat_debut_legislature = if episodes.len() > 0 {
        Some(episodes[0].date_debut)
    } else {
        st.debut
    };
    Some(
        Depute {
            id,
            nom,
            prenom,
            date_naissance,
            sexe,
            pays_naissance,
            profession: profession(v),
            dept_code: st.dept_code,
            dept_nom: st.dept_nom,
            circo: st.circo,
            mandat_debut: st.debut,
            mandat_fin: st.fin,
            mandat_debut_legislature,
            mandat_assemblee_episodes: episodes,
            groupe_id: st.groupe_id,
            groupe_abrev: st.groupe_abrev,
            groupe_nom: st.groupe_nom,
            parti_id: st.parti_id,
            parti_nom: st.parti_nom,
            email_assemblee: contact.email,
            site_web: contact.site_web,
            sites_web: contact.sites_web,
            sites_web_sources: contact.sites_web_sources,
            telephones: contact.telephones,
            uri_hatvp: hatvp(v),
        },
    )
}

} // verus!
