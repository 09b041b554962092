//! The records of whole documents, and the data set of a dump.

use vstd::prelude::*;
use crate::cosign::distinct_ids;
use crate::group_ppl_v1::distinct_file_ids;
use crate::json::{one_or_many, parse_json, Json};
use crate::models::{Amendement, Depute, Dossier, Organe, RawDataset, Scrutin};
use crate::parser::records::{
    is_amendement, is_depute, is_dossier, is_organe, is_scrutin, join, parse_amendement,
    parse_depute, parse_dossier, parse_organe, parse_scrutin, text_at, uid_of,
};
use crate::parser::{holds_text, lemma_holds_text_push, list_holds};
use crate::text::{chars_of, chars_starts_with, starts_with};

verus! {

/// Some earlier record of the list has the id as its `uid`.
pub open spec fn uid_seen(recs: Seq<Json>, id: Seq<char>) -> bool {
    exists|k: int| 0 <= k < recs.len() && text_at(#[trigger] recs[k], "uid"@) == Some(id)
}

/// The records of a list that are read: those with a `uid`, each `uid`
/// where it first stands.
pub open spec fn first_by_uid(recs: Seq<Json>) -> Seq<Json>
    decreases recs.len(),
{
    if recs.len() == 0 {
        recs
    } else {
        let head = first_by_uid(recs.drop_last());
        match text_at(recs.last(), "uid"@) {
            Some(id) => if uid_seen(recs.drop_last(), id) {
                head
            } else {
                head.push(recs.last())
            },
            None => head,
        }
    }
}

proof fn lemma_uid_seen_step(recs: Seq<Json>, i: int, id: Seq<char>)
    requires
        0 <= i < recs.len(),
    ensures
        uid_seen(recs.take(i + 1), id) <==> uid_seen(recs.take(i), id) || text_at(
            recs[i],
            "uid"@,
        ) == Some(id),
{
    let head = recs.take(i);
    let more = recs.take(i + 1);
    assert(more[i] == recs[i]);
    if uid_seen(head, id) {
        let k = choose|k: int| 0 <= k < head.len() && text_at(#[trigger] head[k], "uid"@) == Some(id);
        assert(more[k] == head[k]);
    }
    if uid_seen(more, id) {
        let k = choose|k: int| 0 <= k < more.len() && text_at(#[trigger] more[k], "uid"@) == Some(id);
        if k < i {
            assert(head[k] == more[k]);
        }
    }
}

/// The records of a list to read, as references.
fn records_to_read<'a>(recs: &Vec<&'a Json>, Ghost(items): Ghost<Seq<Json>>) -> (r: Vec<&'a Json>)
    requires
        recs@.len() == items.len(),
        forall|i: int| 0 <= i < recs@.len() ==> *(#[trigger] recs@[i]) == items[i],
    ensures
        r@.len() == first_by_uid(items).len(),
        forall|i: int| 0 <= i < r@.len() ==> *(#[trigger] r@[i]) == first_by_uid(items)[i],
{
    let mut r: Vec<&Json> = Vec::new();
    let mut seen: Vec<String> = Vec::new();
    let mut i: usize = 0;
    assert(items.take(0).len() == 0);
    while i < recs.len()
        invariant
            i <= recs@.len(),
            recs@.len() == items.len(),
            forall|k: int| 0 <= k < recs@.len() ==> *(#[trigger] recs@[k]) == items[k],
            r@.len() == first_by_uid(items.take(i as int)).len(),
            forall|k: int|
                0 <= k < r@.len() ==> *(#[trigger] r@[k]) == first_by_uid(items.take(i as int))[k],
            forall|id: Seq<char>|
                #[trigger] holds_text(seen@, id) <==> uid_seen(items.take(i as int), id),
        decreases recs@.len() - i,
    {
        let ghost seen_before = seen@;
        let ghost before = r@;
        proof {
            assert(items.take(i + 1).drop_last() == items.take(i as int));
            assert(items.take(i + 1).last() == items[i as int]);
            assert forall|id: Seq<char>|
                uid_seen(items.take(i + 1), id) <==> uid_seen(items.take(i as int), id) || text_at(
                    items[i as int],
                    "uid"@,
                ) == Some(id) by {
                lemma_uid_seen_step(items, i as int, id);
            }
        }
        match recs[i].get("uid").string() {
            Some(id) => {
                if !list_holds(&seen, &id) {
                    r.push(recs[i]);
                    seen.push(id);
                    proof {
                        assert forall|k: Seq<char>| #[trigger]
                            holds_text(seen@, k) <==> uid_seen(items.take(i + 1), k) by {
                            lemma_holds_text_push(seen_before, id, k);
                        }
                        assert forall|k: int| 0 <= k < r@.len() implies *(#[trigger] r@[k])
                            == first_by_uid(items.take(i + 1))[k] by {
                            if k < before.len() {
                                assert(r@[k] == before[k]);
                            }
                        }
                    }
                }
            },
            None => {},
        }
        i += 1;
    }
    assert(items.take(items.len() as int) == items);
    r
}

/// The records of the roll calls of a document: those under
/// `scrutins.scrutin`, then those under `scrutin`.
pub open spec fn scrutin_records(root: Json) -> Seq<Json> {
    first_by_uid(root.at("scrutins"@).at("scrutin"@).items() + root.at("scrutin"@).items())
}

/// The roll calls of a document, one for each record that is read.
pub fn scrutins_of_document(root: &Json) -> (out: Vec<Scrutin>)
    ensures
        out@.len() == scrutin_records(*root).len(),
        forall|k: int|
            0 <= k < out@.len() ==> is_scrutin(#[trigger] out@[k], scrutin_records(*root)[k]),
{
    let ghost x = root.at("scrutins"@).at("scrutin"@).items();
    let ghost y = root.at("scrutin"@).items();
    let all = join(
        one_or_many(root.get("scrutins").get("scrutin")),
        one_or_many(root.get("scrutin")),
        Ghost(x),
        Ghost(y),
    );
    let recs = records_to_read(&all, Ghost(x + y));
    let ghost items = scrutin_records(*root);
    proof {
        lemma_first_by_uid_has_uid(x + y);
    }
    let mut out: Vec<Scrutin> = Vec::new();
    let mut i: usize = 0;
    while i < recs.len()
        invariant
            i <= recs@.len(),
            recs@.len() == items.len(),
            forall|k: int| 0 <= k < recs@.len() ==> *(#[trigger] recs@[k]) == items[k],
            forall|k: int| 0 <= k < items.len() ==> text_at(#[trigger] items[k], "uid"@) is Some,
            out@.len() == i,
            forall|k: int| 0 <= k < i ==> is_scrutin(#[trigger] out@[k], items[k]),
        decreases recs@.len() - i,
    {
        assert(text_at(items[i as int], "uid"@) is Some);
        match parse_scrutin(recs[i]) {
            Some(s) => {
                out.push(s);
            },
            None => {},
        }
        i += 1;
    }
    out
}

/// Every record that is read has a `uid`.
proof fn lemma_first_by_uid_has_uid(recs: Seq<Json>)
    ensures
        forall|k: int|
            0 <= k < first_by_uid(recs).len() ==> text_at(
                #[trigger] first_by_uid(recs)[k],
                "uid"@,
            ) is Some,
    decreases recs.len(),
{
    if recs.len() > 0 {
        lemma_first_by_uid_has_uid(recs.drop_last());
        let out = first_by_uid(recs);
        let head = first_by_uid(recs.drop_last());
        assert forall|k: int| 0 <= k < out.len() implies text_at(#[trigger] out[k], "uid"@)
            is Some by {
            if k < head.len() {
                assert(out[k] == head[k]);
            }
        }
    }
}

/// The records of the amendments of a document: those under
/// `amendements.amendement`, then those under `amendement`.
pub open spec fn amendement_records(root: Json) -> Seq<Json> {
    first_by_uid(root.at("amendements"@).at("amendement"@).items() + root.at("amendement"@).items())
}

/// The amendments of a document, one for each record that is read.
pub fn amendements_of_document(root: &Json) -> (out: Vec<Amendement>)
    ensures
        out@.len() == amendement_records(*root).len(),
        forall|k: int|
            0 <= k < out@.len() ==> is_amendement(#[trigger] out@[k], amendement_records(*root)[k]),
{
    let ghost x = root.at("amendements"@).at("amendement"@).items();
    let ghost y = root.at("amendement"@).items();
    let all = join(
        one_or_many(root.get("amendements").get("amendement")),
        one_or_many(root.get("amendement")),
        Ghost(x),
        Ghost(y),
    );
    let recs = records_to_read(&all, Ghost(x + y));
    let ghost items = amendement_records(*root);
    proof {
        lemma_first_by_uid_has_uid(x + y);
    }
    let mut out: Vec<Amendement> = Vec::new();
    let mut i: usize = 0;
    while i < recs.len()
        invariant
            i <= recs@.len(),
            recs@.len() == items.len(),
            forall|k: int| 0 <= k < recs@.len() ==> *(#[trigger] recs@[k]) == items[k],
            forall|k: int| 0 <= k < items.len() ==> text_at(#[trigger] items[k], "uid"@) is Some,
            out@.len() == i,
            forall|k: int| 0 <= k < i ==> is_amendement(#[trigger] out@[k], items[k]),
        decreases recs@.len() - i,
    {
        assert(text_at(items[i as int], "uid"@) is Some);
        match parse_amendement(recs[i]) {
            Some(a) => {
                out.push(a);
            },
            None => {},
        }
        i += 1;
    }
    out
}

/// The ids of the records of a list, each where it first stands.
pub open spec fn first_ids(recs: Seq<Json>, id_of: spec_fn(Json) -> Option<Seq<char>>) -> Seq<
    Seq<char>,
>
    decreases recs.len(),
{
    if recs.len() == 0 {
        Seq::empty()
    } else {
        let head = first_ids(recs.drop_last(), id_of);
        match id_of(recs.last()) {
            Some(id) => if head.contains(id) {
                head
            } else {
                head.push(id)
            },
            None => head,
        }
    }
}

/// The last record of the list with the id.
pub open spec fn last_with(recs: Seq<Json>, id_of: spec_fn(Json) -> Option<Seq<char>>, id: Seq<char>)
    -> Json
    decreases recs.len(),
{
    if recs.len() == 0 {
        Json::Null
    } else if id_of(recs.last()) == Some(id) {
        recs.last()
    } else {
        last_with(recs.drop_last(), id_of, id)
    }
}

/// The first record of the list with the id.
pub open spec fn first_with(
    recs: Seq<Json>,
    id_of: spec_fn(Json) -> Option<Seq<char>>,
    id: Seq<char>,
) -> Json
    decreases recs.len(),
{
    if recs.len() == 0 {
        Json::Null
    } else if first_ids(recs.drop_last(), id_of).contains(id) {
        first_with(recs.drop_last(), id_of, id)
    } else {
        recs.last()
    }
}

/// The `uid` of a record as the id of a legislative file.
pub open spec fn dossier_id() -> spec_fn(Json) -> Option<Seq<char>> {
    |rec: Json| text_at(rec, "uid"@)
}

/// The id of a record of a body, where the record gives a body.
pub open spec fn organe_id() -> spec_fn(Json) -> Option<Seq<char>> {
    |rec: Json|
        if text_at(rec, "codeType"@) is Some {
            uid_of(rec)
        } else {
            None
        }
}

pub open spec fn depute_id() -> spec_fn(Json) -> Option<Seq<char>> {
    |rec: Json| uid_of(rec)
}

/// The files read from the records: one for each id, where the id first
/// stands, read from the last record with the id.
pub open spec fn are_dossiers(out: Seq<Dossier>, recs: Seq<Json>) -> bool {
    let ids = first_ids(recs, dossier_id());
    &&& out.len() == ids.len()
    &&& forall|k: int|
        0 <= k < out.len() ==> is_dossier(#[trigger] out[k], last_with(recs, dossier_id(), ids[k]))
            && out[k].id@ == ids[k]
}

/// The bodies read from the records: one for each id, where the id first
/// stands, read from the last record with the id.
pub open spec fn are_organes(out: Seq<Organe>, recs: Seq<Json>) -> bool {
    let ids = first_ids(recs, organe_id());
    &&& out.len() == ids.len()
    &&& forall|k: int|
        0 <= k < out.len() ==> is_organe(#[trigger] out[k], last_with(recs, organe_id(), ids[k]))
            && out[k].id@ == ids[k]
}

/// The representatives read from the records: one for each id, read from
/// the first record with the id.
pub open spec fn are_deputes(out: Seq<Depute>, recs: Seq<Json>, organes: Seq<Organe>) -> bool {
    let ids = first_ids(recs, depute_id());
    &&& out.len() == ids.len()
    &&& forall|k: int|
        0 <= k < out.len() ==> is_depute(
            #[trigger] out[k],
            first_with(recs, depute_id(), ids[k]),
            organes,
        ) && out[k].id@ == ids[k]
}

proof fn lemma_first_ids_distinct(recs: Seq<Json>, id_of: spec_fn(Json) -> Option<Seq<char>>)
    ensures
        first_ids(recs, id_of).no_duplicates(),
    decreases recs.len(),
{
    if recs.len() > 0 {
        lemma_first_ids_distinct(recs.drop_last(), id_of);
    }
}

/// What one more record changes.
proof fn lemma_record_step(recs: Seq<Json>, i: int, id_of: spec_fn(Json) -> Option<Seq<char>>)
    requires
        0 <= i < recs.len(),
    ensures
        first_ids(recs.take(i + 1), id_of) == match id_of(recs[i]) {
            Some(id) => if first_ids(recs.take(i), id_of).contains(id) {
                first_ids(recs.take(i), id_of)
            } else {
                first_ids(recs.take(i), id_of).push(id)
            },
            None => first_ids(recs.take(i), id_of),
        },
        forall|id: Seq<char>|
            #[trigger] last_with(recs.take(i + 1), id_of, id) == if id_of(recs[i]) == Some(id) {
                recs[i]
            } else {
                last_with(recs.take(i), id_of, id)
            },
        forall|id: Seq<char>|
            #[trigger] first_with(recs.take(i + 1), id_of, id) == if first_ids(
                recs.take(i),
                id_of,
            ).contains(id) {
                first_with(recs.take(i), id_of, id)
            } else {
                recs[i]
            },
{
    assert(recs.take(i + 1).drop_last() == recs.take(i));
    assert(recs.take(i + 1).last() == recs[i]);
}

fn index_of_dossier(list: &Vec<Dossier>, id: &String) -> (r: Option<usize>)
    ensures
        match r {
            Some(i) => i < list@.len() && list@[i as int].id@ == id@,
            None => forall|k: int| 0 <= k < list@.len() ==> (#[trigger] list@[k]).id@ != id@,
        },
{
    let mut i: usize = 0;
    while i < list.len()
        invariant
            i <= list@.len(),
            forall|k: int| 0 <= k < i ==> (#[trigger] list@[k]).id@ != id@,
        decreases list@.len() - i,
    {
        if list[i].id == *id {
            return Some(i);
        }
        i += 1;
    }
    None
}

fn index_of_organe(list: &Vec<Organe>, id: &String) -> (r: Option<usize>)
    ensures
        match r {
            Some(i) => i < list@.len() && list@[i as int].id@ == id@,
            None => forall|k: int| 0 <= k < list@.len() ==> (#[trigger] list@[k]).id@ != id@,
        },
{
    let mut i: usize = 0;
    while i < list.len()
        invariant
            i <= list@.len(),
            forall|k: int| 0 <= k < i ==> (#[trigger] list@[k]).id@ != id@,
        decreases list@.len() - i,
    {
        if list[i].id == *id {
            return Some(i);
        }
        i += 1;
    }
    None
}

fn index_of_depute(list: &Vec<Depute>, id: &String) -> (r: Option<usize>)
    ensures
        match r {
            Some(i) => i < list@.len() && list@[i as int].id@ == id@,
            None => forall|k: int| 0 <= k < list@.len() ==> (#[trigger] list@[k]).id@ != id@,
        },
{
    let mut i: usize = 0;
    while i < list.len()
        invariant
            i <= list@.len(),
            forall|k: int| 0 <= k < i ==> (#[trigger] list@[k]).id@ != id@,
        decreases list@.len() - i,
    {
        if list[i].id == *id {
            return Some(i);
        }
        i += 1;
    }
    None
}

/// Reads one more record of a legislative file into the list.
fn add_dossier(list: &mut Vec<Dossier>, rec: &Json, Ghost(recs): Ghost<Seq<Json>>, Ghost(i): Ghost<int>)
    requires
        0 <= i < recs.len(),
        recs[i] == *rec,
        are_dossiers(old(list)@, recs.take(i)),
    ensures
        are_dossiers(final(list)@, recs.take(i + 1)),
{
    let ghost before = list@;
    let ghost ids = first_ids(recs.take(i), dossier_id());
    let ghost more_ids = first_ids(recs.take(i + 1), dossier_id());
    proof {
        lemma_record_step(recs, i, dossier_id());
    }
    match parse_dossier(rec) {
        Some(d) => {
            let ghost id = d.id@;
            match index_of_dossier(list, &d.id) {
                Some(j) => {
                    proof {
                        assert(ids[j as int] == id);
                        assert(ids.contains(id));
                    }
                    list.set(j, d);
                    proof {
                        lemma_first_ids_distinct(recs.take(i), dossier_id());
                        assert forall|k: int| 0 <= k < list@.len() implies is_dossier(
                            #[trigger] list@[k],
                            last_with(recs.take(i + 1), dossier_id(), more_ids[k]),
                        ) && list@[k].id@ == more_ids[k] by {
                            if k != j {
                                assert(list@[k] == before[k]);
                                assert(ids[k] != ids[j as int]);
                            }
                        }
                    }
                },
                None => {
                    proof {
                        if ids.contains(id) {
                            let k = choose|k: int| 0 <= k < ids.len() && ids[k] == id;
                            assert(before[k].id@ == id);
                        }
                    }
                    list.push(d);
                    proof {
                        assert forall|k: int| 0 <= k < list@.len() implies is_dossier(
                            #[trigger] list@[k],
                            last_with(recs.take(i + 1), dossier_id(), more_ids[k]),
                        ) && list@[k].id@ == more_ids[k] by {
                            if k < before.len() {
                                assert(list@[k] == before[k]);
                                assert(ids.contains(ids[k]));
                            }
                        }
                    }
                },
            }
        },
        None => {},
    }
}

/// Reads one more record of a body into the list.
fn add_organe(list: &mut Vec<Organe>, rec: &Json, Ghost(recs): Ghost<Seq<Json>>, Ghost(i): Ghost<int>)
    requires
        0 <= i < recs.len(),
        recs[i] == *rec,
        are_organes(old(list)@, recs.take(i)),
    ensures
        are_organes(final(list)@, recs.take(i + 1)),
{
    let ghost before = list@;
    let ghost ids = first_ids(recs.take(i), organe_id());
    let ghost more_ids = first_ids(recs.take(i + 1), organe_id());
    proof {
        lemma_record_step(recs, i, organe_id());
    }
    match parse_organe(rec) {
        Some(o) => {
            let ghost id = o.id@;
            match index_of_organe(list, &o.id) {
                Some(j) => {
                    proof {
                        assert(ids[j as int] == id);
                        assert(ids.contains(id));
                    }
                    list.set(j, o);
                    proof {
                        lemma_first_ids_distinct(recs.take(i), organe_id());
                        assert forall|k: int| 0 <= k < list@.len() implies is_organe(
                            #[trigger] list@[k],
                            last_with(recs.take(i + 1), organe_id(), more_ids[k]),
                        ) && list@[k].id@ == more_ids[k] by {
                            if k != j {
                                assert(list@[k] == before[k]);
                                assert(ids[k] != ids[j as int]);
                            }
                        }
                    }
                },
                None => {
                    proof {
                        if ids.contains(id) {
                            let k = choose|k: int| 0 <= k < ids.len() && ids[k] == id;
                            assert(before[k].id@ == id);
                        }
                    }
                    list.push(o);
                    proof {
                        assert forall|k: int| 0 <= k < list@.len() implies is_organe(
                            #[trigger] list@[k],
                            last_with(recs.take(i + 1), organe_id(), more_ids[k]),
                        ) && list@[k].id@ == more_ids[k] by {
                            if k < before.len() {
                                assert(list@[k] == before[k]);
                                assert(ids.contains(ids[k]));
                            }
                        }
                    }
                },
            }
        },
        None => {},
    }
}

/// Reads one more record of a representative into the list.
fn add_depute(
    list: &mut Vec<Depute>,
    rec: &Json,
    organes: &Vec<Organe>,
    Ghost(recs): Ghost<Seq<Json>>,
    Ghost(i): Ghost<int>,
)
    requires
        0 <= i < recs.len(),
        recs[i] == *rec,
        are_deputes(old(list)@, recs.take(i), organes@),
    ensures
        are_deputes(final(list)@, recs.take(i + 1), organes@),
{
    let ghost before = list@;
    let ghost ids = first_ids(recs.take(i), depute_id());
    let ghost more_ids = first_ids(recs.take(i + 1), depute_id());
    proof {
        lemma_record_step(recs, i, depute_id());
    }
    match parse_depute(rec, organes) {
        Some(d) => {
            let ghost id = d.id@;
            match index_of_depute(list, &d.id) {
                Some(j) => {
                    proof {
                        assert(ids[j as int] == id);
                        assert(ids.contains(id));
                        assert forall|k: int| 0 <= k < list@.len() implies is_depute(
                            #[trigger] list@[k],
                            first_with(recs.take(i + 1), depute_id(), more_ids[k]),
                            organes@,
                        ) && list@[k].id@ == more_ids[k] by {
                            assert(ids.contains(ids[k]));
                        }
                    }
                },
                None => {
                    proof {
                        if ids.contains(id) {
                            let k = choose|k: int| 0 <= k < ids.len() && ids[k] == id;
                            assert(before[k].id@ == id);
                        }
                    }
                    list.push(d);
                    proof {
                        assert forall|k: int| 0 <= k < list@.len() implies is_depute(
                            #[trigger] list@[k],
                            first_with(recs.take(i + 1), depute_id(), more_ids[k]),
                            organes@,
                        ) && list@[k].id@ == more_ids[k] by {
                            if k < before.len() {
                                assert(list@[k] == before[k]);
                                assert(ids.contains(ids[k]));
                            }
                        }
                    }
                },
            }
        },
        None => {
            proof {
                assert forall|k: int| 0 <= k < list@.len() implies is_depute(
                    #[trigger] list@[k],
                    first_with(recs.take(i + 1), depute_id(), more_ids[k]),
                    organes@,
                ) && list@[k].id@ == more_ids[k] by {
                    assert(ids.contains(ids[k]));
                }
            }
        },
    }
}

/// The bodies of a list of records. Of the records with one id the last
/// counts.
pub fn organes_of_records(recs: &Vec<&Json>) -> (out: Vec<Organe>)
    ensures
        are_organes(out@, Seq::new(recs@.len(), |i: int| *recs@[i])),
{
    let ghost items = Seq::new(recs@.len(), |i: int| *recs@[i]);
    let mut out: Vec<Organe> = Vec::new();
    let mut i: usize = 0;
    assert(items.take(0).len() == 0);
    while i < recs.len()
        invariant
            i <= recs@.len(),
            items == Seq::new(recs@.len(), |i: int| *recs@[i]),
            are_organes(out@, items.take(i as int)),
        decreases recs@.len() - i,
    {
        add_organe(&mut out, recs[i], Ghost(items), Ghost(i as int));
        i += 1;
    }
    assert(items.take(items.len() as int) == items);
    out
}

/// The representatives of a list of records, read against the bodies. Of
/// the records with one id the first counts.
pub fn deputes_of_records(recs: &Vec<&Json>, organes: &Vec<Organe>) -> (out: Vec<Depute>)
    ensures
        are_deputes(out@, Seq::new(recs@.len(), |i: int| *recs@[i]), organes@),
        distinct_ids(out@),
{
    let ghost items = Seq::new(recs@.len(), |i: int| *recs@[i]);
    let mut out: Vec<Depute> = Vec::new();
    let mut i: usize = 0;
    assert(items.take(0).len() == 0);
    while i < recs.len()
        invariant
            i <= recs@.len(),
            items == Seq::new(recs@.len(), |i: int| *recs@[i]),
            are_deputes(out@, items.take(i as int), organes@),
        decreases recs@.len() - i,
    {
        add_depute(&mut out, recs[i], organes, Ghost(items), Ghost(i as int));
        i += 1;
    }
    assert(items.take(items.len() as int) == items);
    proof {
        lemma_first_ids_distinct(items, depute_id());
        let ids = first_ids(items, depute_id());
        assert forall|a: int, b: int| 0 <= a < b < out@.len() implies (#[trigger] out@[a]).id@ != (
        #[trigger] out@[b]).id@ by {
            assert(ids[a] != ids[b]);
        }
    }
    out
}

/// The records of the legislative files of a document: those under
/// `dossiers.dossier`; where none of them has a `uid`, the record under
/// `dossierParlementaire`, or the document itself.
pub open spec fn dossier_records(root: Json) -> Seq<Json> {
    let listed = root.at("dossiers"@).at("dossier"@).items();
    if first_ids(listed, dossier_id()).len() > 0 {
        listed
    } else {
        listed.push(root.inner("dossierParlementaire"@))
    }
}

pub open spec fn records_of_dossiers() -> spec_fn(Json) -> Seq<Json> {
    |root: Json| dossier_records(root)
}

/// The legislative files of a series of documents. Of the records with
/// one id the last counts.
pub fn dossiers_of_documents(roots: &Vec<Json>) -> (out: Vec<Dossier>)
    ensures
        are_dossiers(out@, crate::parser::records::flat(roots@, records_of_dossiers())),
        distinct_file_ids(out@),
{
    let ghost f = records_of_dossiers();
    let mut out: Vec<Dossier> = Vec::new();
    let ghost mut done: Seq<Json> = Seq::empty();
    let mut r: usize = 0;
    assert(roots@.take(0).len() == 0);
    while r < roots.len()
        invariant
            r <= roots@.len(),
            f == records_of_dossiers(),
            done == crate::parser::records::flat(roots@.take(r as int), f),
            are_dossiers(out@, done),
        decreases roots@.len() - r,
    {
        let root = &roots[r];
        let listed = one_or_many(root.get("dossiers").get("dossier"));
        let ghost items = root.at("dossiers"@).at("dossier"@).items();
        let ghost start = done;
        let ghost count = out@.len();
        proof {
            crate::parser::records::lemma_flat_step(roots@, r as int, f);
        }
        let mut any = false;
        let mut i: usize = 0;
        assert(start + items.take(0) == start);
        assert(items.take(0).len() == 0);
        while i < listed.len()
            invariant
                i <= listed@.len(),
                listed@.len() == items.len(),
                forall|k: int| 0 <= k < listed@.len() ==> *(#[trigger] listed@[k]) == items[k],
                done == start + items.take(i as int),
                are_dossiers(out@, done),
                any == (first_ids(items.take(i as int), dossier_id()).len() > 0),
            decreases listed@.len() - i,
        {
            let ghost all = start + items;
            let ghost at = start.len() + i;
            proof {
                assert(all.take(at as int) == done);
                assert(all[at as int] == items[i as int]);
                assert(all.take(at + 1) == start + items.take(i + 1));
                lemma_record_step(items, i as int, dossier_id());
            }
            let has_uid = listed[i].get("uid").as_str().is_some();
            add_dossier(&mut out, listed[i], Ghost(all), Ghost(at as int));
            proof {
                done = start + items.take(i + 1);
            }
            any = any || has_uid;
            i += 1;
        }
        assert(items.take(items.len() as int) == items);
        if !any {
            let single = root.unwrap_member("dossierParlementaire");
            let ghost all = (start + items).push(*single);
            proof {
                assert(all.take(all.len() - 1) == start + items);
                assert(all.take(all.len() as int) == all);
                assert(all == start + items.push(*single));
            }
            add_dossier(&mut out, single, Ghost(all), Ghost(all.len() - 1));
            proof {
                done = all;
            }
        }
        r += 1;
    }
    assert(roots@.take(roots@.len() as int) == roots@);
    proof {
        lemma_first_ids_distinct(done, dossier_id());
        let ids = first_ids(done, dossier_id());
        assert forall|a: int, b: int| 0 <= a < b < out@.len() implies (#[trigger] out@[a]).id@ != (
        #[trigger] out@[b]).id@ by {
            assert(ids[a] != ids[b]);
        }
    }
    out
}

/// A file of a dump: its name, and what it holds where it could be read.
#[derive(Debug, Clone)]
pub struct SourceFile {
    pub name: String,
    pub content: Option<String>,
}

/// Why a dump gives no data set.
#[derive(Debug, Clone, Copy, PartialEq, Eq, Structural)]
pub enum ParseError {
    /// The directory of the representatives is missing.
    DirectoryMissing,
    /// The directory of the representatives holds no JSON file.
    NoJsonFile,
    /// A file of an aggregated dump could not be read.
    Unreadable,
    /// A file of an aggregated dump is no JSON document.
    InvalidJson,
    /// No document of an aggregated dump holds a representative or a body.
    NoUsableAggregate,
    /// The dump holds no representative.
    NoDepute,
}

impl ParseError {
    pub fn message(&self) -> (r: String)
        ensures
            r@ == match *self {
                ParseError::DirectoryMissing => "R\u{e9}pertoire non trouv\u{e9}"@,
                ParseError::NoJsonFile => "Aucun fichier JSON"@,
                ParseError::Unreadable => "Lecture impossible"@,
                ParseError::InvalidJson => "JSON invalide"@,
                ParseError::NoUsableAggregate => "Aucun JSON agr\u{e9}g\u{e9} exploitable trouv\u{e9} (score=0)"@,
                ParseError::NoDepute => "0 d\u{e9}put\u{e9} pars\u{e9}"@,
            },
    {
        match self {
            ParseError::DirectoryMissing => "R\u{e9}pertoire non trouv\u{e9}".to_string(),
            ParseError::NoJsonFile => "Aucun fichier JSON".to_string(),
            ParseError::Unreadable => "Lecture impossible".to_string(),
            ParseError::InvalidJson => "JSON invalide".to_string(),
            ParseError::NoUsableAggregate => "Aucun JSON agr\u{e9}g\u{e9} exploitable trouv\u{e9} (score=0)".to_string(),
            ParseError::NoDepute => "0 d\u{e9}put\u{e9} pars\u{e9}".to_string(),
        }
    }
}

/// The document that a file holds.
pub open spec fn document_of(f: SourceFile) -> Result<Json, ParseError> {
    match f.content {
        Some(t) => match crate::json::json_of_text(t@) {
            Some(j) => Ok(j),
            None => Err(ParseError::InvalidJson),
        },
        None => Err(ParseError::Unreadable),
    }
}

/// The documents of the files that hold one, in the order of the files.
pub open spec fn documents_of(files: Seq<SourceFile>) -> Seq<Json>
    decreases files.len(),
{
    if files.len() == 0 {
        Seq::empty()
    } else {
        let head = documents_of(files.drop_last());
        match document_of(files.last()) {
            Ok(j) => head.push(j),
            Err(_) => head,
        }
    }
}

/// Why the first file that holds no document holds none.
pub open spec fn first_failure(files: Seq<SourceFile>) -> Option<ParseError>
    decreases files.len(),
{
    if files.len() == 0 {
        None
    } else {
        match first_failure(files.drop_last()) {
            Some(e) => Some(e),
            None => match document_of(files.last()) {
                Ok(_) => None,
                Err(e) => Some(e),
            },
        }
    }
}

fn read_document(f: &SourceFile) -> (r: Result<Json, ParseError>)
    ensures
        r == document_of(*f),
{
    match &f.content {
        Some(t) => match parse_json(t.as_str()) {
            Some(j) => Ok(j),
            None => Err(ParseError::InvalidJson),
        },
        None => Err(ParseError::Unreadable),
    }
}

/// Reads the documents of the files that hold one.
pub fn read_documents(files: &Vec<SourceFile>) -> (r: (Vec<Json>, Option<ParseError>))
    ensures
        r.0@ == documents_of(files@),
        r.1 == first_failure(files@),
{
    let mut roots: Vec<Json> = Vec::new();
    let mut failure: Option<ParseError> = None;
    let mut i: usize = 0;
    assert(files@.take(0).len() == 0);
    while i < files.len()
        invariant
            i <= files@.len(),
            roots@ == documents_of(files@.take(i as int)),
            failure == first_failure(files@.take(i as int)),
        decreases files@.len() - i,
    {
        proof {
            assert(files@.take(i + 1).drop_last() == files@.take(i as int));
            assert(files@.take(i + 1).last() == files@[i as int]);
        }
        match read_document(&files[i]) {
            Ok(j) => {
                roots.push(j);
            },
            Err(e) => {
                if failure.is_none() {
                    failure = Some(e);
                }
            },
        }
        i += 1;
    }
    assert(files@.take(files@.len() as int) == files@);
    (roots, failure)
}

/// The records of the representatives of an aggregated document.
pub open spec fn aggregate_acteurs(root: Json) -> Seq<Json> {
    root.inner("export"@).at("acteurs"@).at("acteur"@).items()
}

/// The records of the bodies of an aggregated document.
pub open spec fn aggregate_organes(root: Json) -> Seq<Json> {
    root.inner("export"@).at("organes"@).at("organe"@).items()
}

/// How much an aggregated document holds: its records of representatives
/// and of bodies.
pub open spec fn aggregate_score(root: Json) -> nat {
    aggregate_acteurs(root).len() + aggregate_organes(root).len()
}

/// The document that holds most, the first of those that hold as much;
/// none where no document holds anything.
pub open spec fn best_document(roots: Seq<Json>) -> Option<int>
    decreases roots.len(),
{
    if roots.len() == 0 {
        None
    } else {
        match best_document(roots.drop_last()) {
            Some(b) => if aggregate_score(roots.last()) > aggregate_score(roots[b]) {
                Some(roots.len() - 1)
            } else {
                Some(b)
            },
            None => if aggregate_score(roots.last()) > 0 {
                Some(roots.len() - 1)
            } else {
                None
            },
        }
    }
}

fn pick_best(roots: &Vec<Json>) -> (r: Option<usize>)
    ensures
        match r {
            Some(b) => best_document(roots@) == Some(b as int) && b < roots@.len(),
            None => best_document(roots@).is_none(),
        },
{
    let mut best: Option<usize> = None;
    let mut best_score: u128 = 0;
    let mut i: usize = 0;
    assert(roots@.take(0).len() == 0);
    while i < roots.len()
        invariant
            i <= roots@.len(),
            match best {
                Some(b) => best_document(roots@.take(i as int)) == Some(b as int) && b < i
                    && best_score == aggregate_score(roots@[b as int]) && best_score > 0,
                None => best_document(roots@.take(i as int)).is_none() && best_score == 0,
            },
        decreases roots@.len() - i,
    {
        proof {
            assert(roots@.take(i + 1).drop_last() == roots@.take(i as int));
            assert(roots@.take(i + 1).last() == roots@[i as int]);
            if best is Some {
                assert(roots@.take(i as int)[best->0 as int] == roots@[best->0 as int]);
            }
        }
        let export = roots[i].unwrap_member("export");
        let a = one_or_many(export.get("acteurs").get("acteur")).len();
        let o = one_or_many(export.get("organes").get("organe")).len();
        let score: u128 = a as u128 + o as u128;
        if score > best_score {
            best = Some(i);
            best_score = score;
        }
        i += 1;
    }
    assert(roots@.take(roots@.len() as int) == roots@);
    best
}

/// The representatives and the bodies of an aggregated dump: those of the
/// document that holds most.
pub open spec fn is_aggregate(deputes: Seq<Depute>, organes: Seq<Organe>, root: Json) -> bool {
    &&& are_organes(organes, aggregate_organes(root))
    &&& are_deputes(deputes, aggregate_acteurs(root), organes)
    &&& distinct_ids(deputes)
    &&& deputes.len() > 0
}

/// What reading an aggregated dump gives: the first failure to read a
/// file; no usable document where no document holds anything; no
/// representative where the best document gives none; else the
/// representatives and the bodies of the best document.
pub open spec fn is_aggregated_outcome(
    r: Result<(Vec<Depute>, Vec<Organe>), ParseError>,
    files: Seq<SourceFile>,
) -> bool {
    let roots = documents_of(files);
    match first_failure(files) {
        Some(e) => r == Err::<(Vec<Depute>, Vec<Organe>), ParseError>(e),
        None => match best_document(roots) {
            None => r == Err::<(Vec<Depute>, Vec<Organe>), ParseError>(
                ParseError::NoUsableAggregate,
            ),
            Some(b) => if first_ids(aggregate_acteurs(roots[b]), depute_id()).len() == 0 {
                r == Err::<(Vec<Depute>, Vec<Organe>), ParseError>(ParseError::NoDepute)
            } else {
                r matches Ok(pair) && is_aggregate(pair.0@, pair.1@, roots[b])
            },
        },
    }
}

/// Reads the representatives and the bodies from the documents of an
/// aggregated dump.
pub fn parse_deputes_aggregated(files: &Vec<SourceFile>) -> (r: Result<
    (Vec<Depute>, Vec<Organe>),
    ParseError,
>)
    ensures
        is_aggregated_outcome(r, files@),
{
    let read = read_documents(files);
    match read.1 {
        Some(e) => {
            return Err(e);
        },
        None => {},
    }
    let roots = read.0;
    let b = match pick_best(&roots) {
        Some(b) => b,
        None => {
            return Err(ParseError::NoUsableAggregate);
        },
    };
    let export = roots[b].unwrap_member("export");
    let organe_records = one_or_many(export.get("organes").get("organe"));
    let acteur_records = one_or_many(export.get("acteurs").get("acteur"));
    let organes = organes_of_records(&organe_records);
    let deputes = deputes_of_records(&acteur_records, &organes);
    proof {
        assert(Seq::new(organe_records@.len(), |i: int| *organe_records@[i]) =~= aggregate_organes(
            roots@[b as int],
        ));
        assert(Seq::new(acteur_records@.len(), |i: int| *acteur_records@[i]) =~= aggregate_acteurs(
            roots@[b as int],
        ));
    }
    if deputes.len() == 0 {
        return Err(ParseError::NoDepute);
    }
    Ok((deputes, organes))
}

/// The records of the files whose name begins with the prefix: of each
/// file that holds a document, the member with the key, or the document
/// itself where it has no such member.
pub open spec fn named_records(files: Seq<SourceFile>, prefix: Seq<char>, key: Seq<char>) -> Seq<Json>
    decreases files.len(),
{
    if files.len() == 0 {
        Seq::empty()
    } else {
        let head = named_records(files.drop_last(), prefix, key);
        match document_of(files.last()) {
            Ok(j) => if starts_with(files.last().name@, prefix) {
                head.push(j.inner(key))
            } else {
                head
            },
            Err(_) => head,
        }
    }
}

fn read_named(files: &Vec<SourceFile>, prefix: &str, key: &str) -> (roots: Vec<Json>)
    ensures
        roots@.len() == named_records(files@, prefix@, key@).len(),
        forall|k: int|
            0 <= k < roots@.len() ==> (#[trigger] roots@[k]).inner(key@) == named_records(
                files@,
                prefix@,
                key@,
            )[k],
{
    let p = chars_of(prefix);
    let mut roots: Vec<Json> = Vec::new();
    let mut i: usize = 0;
    assert(files@.take(0).len() == 0);
    while i < files.len()
        invariant
            i <= files@.len(),
            p@ == prefix@,
            roots@.len() == named_records(files@.take(i as int), prefix@, key@).len(),
            forall|k: int|
                0 <= k < roots@.len() ==> (#[trigger] roots@[k]).inner(key@) == named_records(
                    files@.take(i as int),
                    prefix@,
                    key@,
                )[k],
        decreases files@.len() - i,
    {
        let ghost before = roots@;
        proof {
            assert(files@.take(i + 1).drop_last() == files@.take(i as int));
            assert(files@.take(i + 1).last() == files@[i as int]);
        }
        if chars_starts_with(&chars_of(files[i].name.as_str()), &p) {
            match read_document(&files[i]) {
                Ok(j) => {
                    roots.push(j);
                    proof {
                        assert forall|k: int| 0 <= k < roots@.len() implies (
                        #[trigger] roots@[k]).inner(key@) == named_records(
                            files@.take(i + 1),
                            prefix@,
                            key@,
                        )[k] by {
                            if k < before.len() {
                                assert(roots@[k] == before[k]);
                            }
                        }
                    }
                },
                Err(_) => {},
            }
        }
        i += 1;
    }
    assert(files@.take(files@.len() as int) == files@);
    roots
}

fn inner_records<'a>(roots: &'a Vec<Json>, key: &str) -> (recs: Vec<&'a Json>)
    ensures
        recs@.len() == roots@.len(),
        forall|k: int| 0 <= k < recs@.len() ==> *(#[trigger] recs@[k]) == roots@[k].inner(key@),
{
    let mut recs: Vec<&Json> = Vec::new();
    let mut i: usize = 0;
    while i < roots.len()
        invariant
            i <= roots@.len(),
            recs@.len() == i,
            forall|k: int| 0 <= k < i ==> *(#[trigger] recs@[k]) == roots@[k].inner(key@),
        decreases roots@.len() - i,
    {
        recs.push(roots[i].unwrap_member(key));
        i += 1;
    }
    recs
}

/// What reading a dump of one file for each record gives: the bodies of the
/// files named `PO…`, the representatives of the files named `PA…` read
/// against them; no representative where no such file gives one.
pub open spec fn is_multifile_outcome(
    r: Result<(Vec<Depute>, Vec<Organe>), ParseError>,
    files: Seq<SourceFile>,
) -> bool {
    let acteurs = named_records(files, "PA"@, "acteur"@);
    if first_ids(acteurs, depute_id()).len() == 0 {
        r == Err::<(Vec<Depute>, Vec<Organe>), ParseError>(ParseError::NoDepute)
    } else {
        r matches Ok(pair) && are_organes(pair.1@, named_records(files, "PO"@, "organe"@))
            && are_deputes(pair.0@, acteurs, pair.1@) && distinct_ids(pair.0@) && pair.0@.len()
            > 0
    }
}

/// Reads the representatives and the bodies from a dump of one file for
/// each record. A file that cannot be read is passed over.
pub fn parse_deputes_multifile(files: &Vec<SourceFile>) -> (r: Result<
    (Vec<Depute>, Vec<Organe>),
    ParseError,
>)
    ensures
        is_multifile_outcome(r, files@),
{
    let organe_roots = read_named(files, "PO", "organe");
    let organe_records = inner_records(&organe_roots, "organe");
    let organes = organes_of_records(&organe_records);
    let acteur_roots = read_named(files, "PA", "acteur");
    let acteur_records = inner_records(&acteur_roots, "acteur");
    let deputes = deputes_of_records(&acteur_records, &organes);
    proof {
        assert(Seq::new(organe_records@.len(), |i: int| *organe_records@[i]) =~= named_records(
            files@,
            "PO"@,
            "organe"@,
        ));
        assert(Seq::new(acteur_records@.len(), |i: int| *acteur_records@[i]) =~= named_records(
            files@,
            "PA"@,
            "acteur"@,
        ));
    }
    if deputes.len() == 0 {
        return Err(ParseError::NoDepute);
    }
    Ok((deputes, organes))
}

pub open spec fn named_with(prefix: Seq<char>) -> spec_fn(SourceFile) -> bool {
    |f: SourceFile| starts_with(f.name@, prefix)
}

/// How many files a dump needs, named after an actor or a body, to count
/// as a dump of one file for each record.
pub const MULTIFILE_THRESHOLD: usize = 50;

/// The files look like a dump of one file for each record.
pub open spec fn looks_multifile(files: Seq<SourceFile>) -> bool {
    crate::counting::count_if(files, named_with("PA"@)) + crate::counting::count_if(
        files,
        named_with("PO"@),
    ) >= MULTIFILE_THRESHOLD
}

/// What reading the representatives of a dump gives: nothing without a
/// file; else what the form of the dump gives, an aggregated dump that
/// cannot be read being read as one of a file for each record.
pub open spec fn is_deputes_outcome(
    r: Result<(Vec<Depute>, Vec<Organe>), ParseError>,
    files: Seq<SourceFile>,
) -> bool {
    if files.len() == 0 {
        r == Err::<(Vec<Depute>, Vec<Organe>), ParseError>(ParseError::NoJsonFile)
    } else if looks_multifile(files) {
        is_multifile_outcome(r, files)
    } else {
        (r is Ok && is_aggregated_outcome(r, files)) || (exists|e: ParseError| #[trigger]
            is_aggregated_outcome(Err::<(Vec<Depute>, Vec<Organe>), ParseError>(e), files))
            && is_multifile_outcome(r, files)
    }
}

/// Reads the representatives and the bodies of a dump from its JSON files,
/// in the form that the files show.
pub fn parse_deputes(files: &Vec<SourceFile>) -> (r: Result<(Vec<Depute>, Vec<Organe>), ParseError>)
    ensures
        is_deputes_outcome(r, files@),
{
    if files.len() == 0 {
        return Err(ParseError::NoJsonFile);
    }
    let pa = chars_of("PA");
    let po = chars_of("PO");
    let mut named: usize = 0;
    let mut i: usize = 0;
    while i < files.len()
        invariant
            i <= files@.len(),
            pa@ == "PA"@,
            po@ == "PO"@,
            named == crate::counting::count_if(files@.take(i as int), named_with("PA"@))
                + crate::counting::count_if(files@.take(i as int), named_with("PO"@)),
            named <= i,
        decreases files@.len() - i,
    {
        proof {
            crate::counting::lemma_count_step(files@, i as int, named_with("PA"@));
            crate::counting::lemma_count_step(files@, i as int, named_with("PO"@));
            reveal_strlit("PA");
            reveal_strlit("PO");
            let n = files@[i as int].name@;
            if starts_with(n, "PA"@) && starts_with(n, "PO"@) {
                assert(n.subrange(0, 2)[1] == 'A');
                assert(n.subrange(0, 2)[1] == 'O');
            }
        }
        let name = chars_of(files[i].name.as_str());
        if chars_starts_with(&name, &pa) || chars_starts_with(&name, &po) {
            named += 1;
        }
        i += 1;
    }
    assert(files@.take(files@.len() as int) == files@);
    if named >= MULTIFILE_THRESHOLD {
        return parse_deputes_multifile(files);
    }
    match parse_deputes_aggregated(files) {
        Ok(pair) => Ok(pair),
        Err(e) => {
            let r = parse_deputes_multifile(files);
            proof {
                assert(is_aggregated_outcome(
                    Err::<(Vec<Depute>, Vec<Organe>), ParseError>(e),
                    files@,
                ));
            }
            r
        },
    }
}

pub open spec fn records_of_scrutins() -> spec_fn(Json) -> Seq<Json> {
    |root: Json| scrutin_records(root)
}

pub open spec fn records_of_amendements() -> spec_fn(Json) -> Seq<Json> {
    |root: Json| amendement_records(root)
}

/// The roll calls are those of the records, one for each in order.
pub open spec fn are_scrutins(out: Seq<Scrutin>, recs: Seq<Json>) -> bool {
    &&& out.len() == recs.len()
    &&& forall|k: int| 0 <= k < out.len() ==> is_scrutin(#[trigger] out[k], recs[k])
}

/// The amendments are those of the records, one for each in order.
pub open spec fn are_amendements(out: Seq<Amendement>, recs: Seq<Json>) -> bool {
    &&& out.len() == recs.len()
    &&& forall|k: int| 0 <= k < out.len() ==> is_amendement(#[trigger] out[k], recs[k])
}

/// The roll calls of a series of documents.
pub fn scrutins_of_documents(roots: &Vec<Json>) -> (out: Vec<Scrutin>)
    ensures
        are_scrutins(out@, crate::parser::records::flat(roots@, records_of_scrutins())),
{
    let ghost f = records_of_scrutins();
    let mut out: Vec<Scrutin> = Vec::new();
    let mut r: usize = 0;
    assert(roots@.take(0).len() == 0);
    while r < roots.len()
        invariant
            r <= roots@.len(),
            f == records_of_scrutins(),
            are_scrutins(out@, crate::parser::records::flat(roots@.take(r as int), f)),
        decreases roots@.len() - r,
    {
        let ghost before = out@;
        let ghost done = crate::parser::records::flat(roots@.take(r as int), f);
        proof {
            crate::parser::records::lemma_flat_step(roots@, r as int, f);
        }
        let mut more = scrutins_of_document(&roots[r]);
        let ghost added = more@;
        out.append(&mut more);
        proof {
            let recs = done + scrutin_records(roots@[r as int]);
            assert forall|k: int| 0 <= k < out@.len() implies is_scrutin(
                #[trigger] out@[k],
                recs[k],
            ) by {
                if k < before.len() {
                    assert(out@[k] == before[k]);
                } else {
                    assert(out@[k] == added[k - before.len()]);
                }
            }
        }
        r += 1;
    }
    assert(roots@.take(roots@.len() as int) == roots@);
    out
}

/// The amendments of a series of documents.
pub fn amendements_of_documents(roots: &Vec<Json>) -> (out: Vec<Amendement>)
    ensures
        are_amendements(out@, crate::parser::records::flat(roots@, records_of_amendements())),
{
    let ghost f = records_of_amendements();
    let mut out: Vec<Amendement> = Vec::new();
    let mut r: usize = 0;
    assert(roots@.take(0).len() == 0);
    while r < roots.len()
        invariant
            r <= roots@.len(),
            f == records_of_amendements(),
            are_amendements(out@, crate::parser::records::flat(roots@.take(r as int), f)),
        decreases roots@.len() - r,
    {
        let ghost before = out@;
        let ghost done = crate::parser::records::flat(roots@.take(r as int), f);
        proof {
            crate::parser::records::lemma_flat_step(roots@, r as int, f);
        }
        let mut more = amendements_of_document(&roots[r]);
        let ghost added = more@;
        out.append(&mut more);
        proof {
            let recs = done + amendement_records(roots@[r as int]);
            assert forall|k: int| 0 <= k < out@.len() implies is_amendement(
                #[trigger] out@[k],
                recs[k],
            ) by {
                if k < before.len() {
                    assert(out@[k] == before[k]);
                } else {
                    assert(out@[k] == added[k - before.len()]);
                }
            }
        }
        r += 1;
    }
    assert(roots@.take(roots@.len() as int) == roots@);
    out
}

/// The JSON files of the four directories of a dump, each list in the
/// order of the names; none for a directory that is missing.
#[derive(Debug, Clone)]
pub struct DumpFiles {
    pub deputes: Option<Vec<SourceFile>>,
    pub scrutins: Option<Vec<SourceFile>>,
    pub amendements: Option<Vec<SourceFile>>,
    pub dossiers: Option<Vec<SourceFile>>,
}

/// The documents of a directory: those of its files that hold one; none
/// for a directory that is missing.
pub open spec fn directory_documents(dir: Option<Vec<SourceFile>>) -> Seq<Json> {
    match dir {
        Some(files) => documents_of(files@),
        None => Seq::empty(),
    }
}

fn documents_of_directory(dir: &Option<Vec<SourceFile>>) -> (roots: Vec<Json>)
    ensures
        roots@ == directory_documents(*dir),
{
    match dir {
        Some(files) => read_documents(files).0,
        None => Vec::new(),
    }
}

/// The data set is that of the dump.
pub open spec fn is_dataset(raw: RawDataset, dump: DumpFiles) -> bool {
    &&& dump.deputes matches Some(files) && is_deputes_outcome(
        Ok::<(Vec<Depute>, Vec<Organe>), ParseError>((raw.deputes, raw.organes)),
        files@,
    )
    &&& distinct_ids(raw.deputes@)
    &&& raw.deputes@.len() > 0
    &&& are_scrutins(
        raw.scrutins@,
        crate::parser::records::flat(directory_documents(dump.scrutins), records_of_scrutins()),
    )
    &&& are_amendements(
        raw.amendements@,
        crate::parser::records::flat(
            directory_documents(dump.amendements),
            records_of_amendements(),
        ),
    )
    &&& are_dossiers(
        raw.dossiers@,
        crate::parser::records::flat(directory_documents(dump.dossiers), records_of_dossiers()),
    )
    &&& distinct_file_ids(raw.dossiers@)
}

/// Reads a dump into a data set. Without the representatives there is no
/// data set; roll calls, amendments and legislative files may be missing,
/// and a file of theirs that cannot be read is passed over.
pub fn parse_all(dump: &DumpFiles) -> (r: Result<RawDataset, ParseError>)
    ensures
        match r {
            Ok(raw) => is_dataset(raw, *dump),
            Err(e) => match dump.deputes {
                Some(files) => is_deputes_outcome(
                    Err::<(Vec<Depute>, Vec<Organe>), ParseError>(e),
                    files@,
                ),
                None => e == ParseError::DirectoryMissing,
            },
        },
{
    let files = match &dump.deputes {
        Some(files) => files,
        None => {
            return Err(ParseError::DirectoryMissing);
        },
    };
    let (deputes, organes) = match parse_deputes(files) {
        Ok(pair) => pair,
        Err(e) => {
            return Err(e);
        },
    };
    proof {
        lemma_outcome_ok(deputes, organes, files@);
    }
    let scrutins = scrutins_of_documents(&documents_of_directory(&dump.scrutins));
    let amendements = amendements_of_documents(&documents_of_directory(&dump.amendements));
    let dossiers = dossiers_of_documents(&documents_of_directory(&dump.dossiers));
    Ok(RawDataset { deputes, organes, scrutins, amendements, dossiers })
}

/// The representatives that a dump gives are there, each id once.
proof fn lemma_outcome_ok(deputes: Vec<Depute>, organes: Vec<Organe>, files: Seq<SourceFile>)
    requires
        is_deputes_outcome(Ok::<(Vec<Depute>, Vec<Organe>), ParseError>((deputes, organes)), files),
    ensures
        distinct_ids(deputes@),
        deputes@.len() > 0,
{
}

} // verus!
