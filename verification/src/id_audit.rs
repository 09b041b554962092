//! An audit of the ids and names of the representatives: ids that occur
//! more than once, and names that go with more than one id.

use vstd::prelude::*;
use crate::counting::{count_if, lemma_count_step};
use crate::dates::date_text;
use crate::group_ppl_v1::{actor_id, name_id_leq, name_id_not_after};
use crate::models::{Depute, MandatAssembleeEpisode};
use crate::numbers::{decimal_chars, decimal_text};
use crate::parser::holds_text;
use crate::text::{
    append_chars, chars_collapse_whitespace, chars_of, collapse_whitespace, lemma_lex_irreflexive,
    lemma_lex_total, lemma_lex_transitive, lex_lt, lowercase_of, opt_text, str_lt, str_to_lowercase,
    text_of,
};

verus! {

/// No text of the list comes after a later one or equals it.
pub open spec fn strictly_sorted(list: Seq<String>) -> bool {
    forall|a: int, b: int|
        0 <= a < b < list.len() ==> lex_lt((#[trigger] list[a])@, (#[trigger] list[b])@)
}

/// Puts the text into the sorted list, unless the list holds it.
pub fn sorted_insert(list: &mut Vec<String>, s: &String)
    requires
        strictly_sorted(old(list)@),
    ensures
        strictly_sorted(final(list)@),
        forall|key: Seq<char>|
            #[trigger] holds_text(final(list)@, key) <==> holds_text(old(list)@, key) || key == s@,
        final(list)@.len() == old(list)@.len() + if holds_text(old(list)@, s@) {
            0int
        } else {
            1int
        },
{
    let ghost before = list@;
    let mut i: usize = 0;
    while i < list.len() && str_lt(list[i].as_str(), s.as_str())
        invariant
            i <= list@.len(),
            list@ == before,
            forall|k: int| 0 <= k < i ==> lex_lt((#[trigger] before[k])@, s@),
        decreases list@.len() - i,
    {
        i += 1;
    }
    proof {
        lemma_lex_irreflexive(s@);
        assert forall|k: int| 0 <= k < i implies (#[trigger] before[k])@ != s@ by {}
    }
    if i < list.len() && list[i] == *s {
        proof {
            assert(holds_text(before, s@));
        }
        return ;
    }
    proof {
        // nothing from position i on equals s, since all of it comes after s
        if i < before.len() {
            lemma_lex_total(before[i as int]@, s@);
            assert(lex_lt(s@, before[i as int]@));
            assert forall|k: int| i <= k < before.len() implies lex_lt(s@, (#[trigger] before[k])@) by {
                if k > i {
                    lemma_lex_transitive(s@, before[i as int]@, before[k]@);
                }
            }
        }
        assert(!holds_text(before, s@)) by {
            if holds_text(before, s@) {
                let x = choose|x: int| 0 <= x < before.len() && (#[trigger] before[x])@ == s@;
                if x >= i {
                    assert(lex_lt(s@, before[x]@));
                }
            }
        }
    }
    list.insert(i, s.clone());
    proof {
        let after = list@;
        assert forall|a: int, b: int| 0 <= a < b < after.len() implies lex_lt(
            (#[trigger] after[a])@,
            (#[trigger] after[b])@,
        ) by {
            if b < i {
            } else if b == i {
                assert(after[a] == before[a]);
            } else if a < i {
                assert(after[a] == before[a] && after[b] == before[b - 1]);
                if a < b - 1 {
                } else {
                    lemma_lex_transitive(before[a]@, s@, before[b - 1]@);
                }
            } else if a == i {
                assert(after[b] == before[b - 1]);
            } else {
                assert(after[a] == before[a - 1] && after[b] == before[b - 1]);
            }
        }
        assert forall|key: Seq<char>| #[trigger]
            holds_text(after, key) <==> holds_text(before, key) || key == s@ by {
            if holds_text(before, key) {
                let x = choose|x: int| 0 <= x < before.len() && (#[trigger] before[x])@ == key;
                if x < i {
                    assert(after[x]@ == key);
                } else {
                    assert(after[x + 1]@ == key);
                }
            }
            if key == s@ {
                assert(after[i as int]@ == key);
            }
            if holds_text(after, key) {
                let x = choose|x: int| 0 <= x < after.len() && (#[trigger] after[x])@ == key;
                if x < i {
                    assert(before[x]@ == key);
                } else if x > i {
                    assert(before[x - 1]@ == key);
                }
            }
        }
    }
}

/// Whether the sorted list holds the text.
pub fn sorted_holds(list: &Vec<String>, s: &String) -> (r: bool)
    ensures
        r == holds_text(list@, s@),
{
    crate::parser::list_holds(list, s)
}

/// The id under which the audit counts a representative.
pub open spec fn pa_id(d: Depute) -> Seq<char> {
    actor_id(d.id@)
}

/// The name that the audit shows for a representative.
pub open spec fn display_name(d: Depute) -> Seq<char> {
    collapse_whitespace(d.prenom@ + " "@ + d.nom@)
}

/// The name under which the audit files a representative.
pub open spec fn filed_name(d: Depute) -> Seq<char> {
    lowercase_of(display_name(d))
}

pub open spec fn with_pa_id(key: Seq<char>) -> spec_fn(Depute) -> bool {
    |d: Depute| pa_id(d) == key
}

/// Some representative is filed under the name and has the id.
pub open spec fn name_has_id(deputes: Seq<Depute>, name: Seq<char>, id: Seq<char>) -> bool {
    exists|j: int|
        0 <= j < deputes.len() && filed_name(#[trigger] deputes[j]) == name && pa_id(deputes[j])
            == id
}

/// Some representative is filed under the name and shown by the display
/// name.
pub open spec fn name_has_display(deputes: Seq<Depute>, name: Seq<char>, shown: Seq<char>) -> bool {
    exists|j: int|
        0 <= j < deputes.len() && filed_name(#[trigger] deputes[j]) == name && display_name(
            deputes[j],
        ) == shown
}

/// The ids and display names of the representatives filed under one name.
#[derive(Debug, Clone)]
pub struct GroupPplDeputyIdDuplicateEntry {
    pub normalized_name: String,
    pub display_names: Vec<String>,
    pub pa_ids: Vec<String>,
}

/// A representative as the audit lists them.
#[derive(Debug, Clone)]
pub struct GroupPplDeputyMandateDebugEntry {
    pub deputy_id: String,
    pub full_name: String,
    pub group_label: Option<String>,
    pub mandat_assemblee_episode_count: usize,
    pub mandat_assemblee_episodes: Vec<String>,
}

#[derive(Debug, Clone)]
pub struct GroupPplDeputyIdAuditSummary {
    pub version: u8,
    pub generated_at: String,
    pub deputes_total: usize,
    pub unique_pa_ids: usize,
    pub duplicate_pa_id_entries: usize,
    pub names_with_multiple_pa_ids: usize,
}

#[derive(Debug, Clone)]
pub struct GroupPplDeputyIdAuditReport {
    pub summary: GroupPplDeputyIdAuditSummary,
    pub duplicate_pa_ids: Vec<String>,
    pub names_with_multiple_pa_ids: Vec<GroupPplDeputyIdDuplicateEntry>,
    pub deputies: Vec<GroupPplDeputyMandateDebugEntry>,
}

/// The entry lists, sorted, the ids and the display names of the
/// representatives filed under its name.
pub open spec fn is_name_entry(e: GroupPplDeputyIdDuplicateEntry, deputes: Seq<Depute>) -> bool {
    &&& strictly_sorted(e.pa_ids@)
    &&& strictly_sorted(e.display_names@)
    &&& forall|id: Seq<char>|
        #[trigger] holds_text(e.pa_ids@, id) <==> name_has_id(deputes, e.normalized_name@, id)
    &&& forall|shown: Seq<char>|
        #[trigger] holds_text(e.display_names@, shown) <==> name_has_display(
            deputes,
            e.normalized_name@,
            shown,
        )
}

/// The entries file the representatives by name: one entry for each name,
/// sorted.
pub open spec fn are_name_entries(
    entries: Seq<GroupPplDeputyIdDuplicateEntry>,
    deputes: Seq<Depute>,
) -> bool {
    &&& forall|k: int| 0 <= k < entries.len() ==> is_name_entry(#[trigger] entries[k], deputes)
    &&& forall|a: int, b: int|
        0 <= a < b < entries.len() ==> lex_lt(
            (#[trigger] entries[a]).normalized_name@,
            (#[trigger] entries[b]).normalized_name@,
        )
}

/// The label of an episode of a mandate: its number, its first day and its
/// last day, or that it is running.
pub open spec fn episode_label(e: MandatAssembleeEpisode, number: nat) -> Seq<char> {
    episode_label_text(
        number,
        date_text(e.date_debut.day()),
        match e.date_fin {
            Some(d) => Some(date_text(d.day())),
            None => None,
        },
    )
}

/// The label of an episode for the texts of its first and last day.
pub open spec fn episode_label_text(number: nat, debut: Seq<char>, fin: Option<Seq<char>>) -> Seq<
    char,
> {
    "Mandat AN \u{e9}pisode "@ + decimal_text(number) + ": "@ + debut + " \u{2192} "@ + match fin {
        Some(d) => d,
        None => "en cours"@,
    }
}

/// Writes the label of an episode from its number and the texts of its
/// first day and of its last day, where it has one.
pub fn episode_label_from(number: u64, debut: &str, fin: &Option<String>) -> (r: String)
    ensures
        r@ == episode_label_text(number as nat, debut@, opt_text(*fin)),
{
    let mut out = chars_of("Mandat AN \u{e9}pisode ");
    append_chars(&mut out, &decimal_chars(number));
    append_chars(&mut out, &chars_of(": "));
    append_chars(&mut out, &chars_of(debut));
    append_chars(&mut out, &chars_of(" \u{2192} "));
    match fin {
        Some(d) => {
            append_chars(&mut out, &chars_of(d.as_str()));
        },
        None => {
            append_chars(&mut out, &chars_of("en cours"));
        },
    }
    text_of(&out)
}

/// The labels of the episodes of a representative, numbered from one.
pub fn format_mandat_episode_labels(dep: &Depute) -> (labels: Vec<String>)
    ensures
        labels@.len() == dep.mandat_assemblee_episodes@.len(),
        forall|i: int|
            0 <= i < labels@.len() ==> (#[trigger] labels@[i])@ == episode_label(
                dep.mandat_assemblee_episodes@[i],
                (i + 1) as nat,
            ),
{
    let mut labels: Vec<String> = Vec::new();
    let mut i: usize = 0;
    while i < dep.mandat_assemblee_episodes.len()
        invariant
            i <= dep.mandat_assemblee_episodes@.len(),
            labels@.len() == i,
            forall|k: int|
                0 <= k < i ==> (#[trigger] labels@[k])@ == episode_label(
                    dep.mandat_assemblee_episodes@[k],
                    (k + 1) as nat,
                ),
        decreases dep.mandat_assemblee_episodes@.len() - i,
    {
        let e = &dep.mandat_assemblee_episodes[i];
        let fin = match &e.date_fin {
            Some(d) => Some(d.to_text()),
            None => None,
        };
        labels.push(episode_label_from(i as u64 + 1, e.date_debut.to_text().as_str(), &fin));
        i += 1;
    }
    labels
}

/// The name that the audit shows for a representative.
pub fn display_name_of(d: &Depute) -> (r: String)
    ensures
        r@ == display_name(*d),
{
    let mut out = chars_of(d.prenom.as_str());
    append_chars(&mut out, &chars_of(" "));
    append_chars(&mut out, &chars_of(d.nom.as_str()));
    text_of(&chars_collapse_whitespace(&out))
}

/// The entry lists the representative.
pub open spec fn is_deputy_entry(e: GroupPplDeputyMandateDebugEntry, d: Depute) -> bool {
    &&& e.deputy_id@ == d.id@
    &&& e.full_name@ == display_name(d)
    &&& opt_text(e.group_label) == match (d.groupe_abrev, d.groupe_nom) {
        (Some(a), _) => Some(a@),
        (None, Some(n)) => Some(n@),
        (None, None) => None,
    }
    &&& e.mandat_assemblee_episode_count == d.mandat_assemblee_episodes@.len()
    &&& e.mandat_assemblee_episodes@.len() == d.mandat_assemblee_episodes@.len()
    &&& forall|i: int|
        0 <= i < e.mandat_assemblee_episodes@.len() ==> (
        #[trigger] e.mandat_assemblee_episodes@[i])@ == episode_label(
            d.mandat_assemblee_episodes@[i],
            (i + 1) as nat,
        )
}

pub open spec fn deputy_entry_leq(
    a: GroupPplDeputyMandateDebugEntry,
    b: GroupPplDeputyMandateDebugEntry,
) -> bool {
    name_id_leq((a.full_name@, a.deputy_id@), (b.full_name@, b.deputy_id@))
}

pub open spec fn deputy_entry_order() -> spec_fn(
    GroupPplDeputyMandateDebugEntry,
    GroupPplDeputyMandateDebugEntry,
) -> bool {
    |a: GroupPplDeputyMandateDebugEntry, b: GroupPplDeputyMandateDebugEntry| deputy_entry_leq(a, b)
}

/// The entries list the representatives, one entry for each in order.
pub open spec fn are_deputy_entries(
    entries: Seq<GroupPplDeputyMandateDebugEntry>,
    deputes: Seq<Depute>,
) -> bool {
    &&& entries.len() == deputes.len()
    &&& forall|k: int| 0 <= k < entries.len() ==> is_deputy_entry(#[trigger] entries[k], deputes[k])
}

fn deputy_entries(deputes: &Vec<Depute>) -> (entries: Vec<GroupPplDeputyMandateDebugEntry>)
    ensures
        are_deputy_entries(entries@, deputes@),
{
    let mut entries: Vec<GroupPplDeputyMandateDebugEntry> = Vec::new();
    let mut i: usize = 0;
    while i < deputes.len()
        invariant
            i <= deputes@.len(),
            entries@.len() == i,
            forall|k: int| 0 <= k < i ==> is_deputy_entry(#[trigger] entries@[k], deputes@[k]),
        decreases deputes@.len() - i,
    {
        let d = &deputes[i];
        let group_label = match (&d.groupe_abrev, &d.groupe_nom) {
            (Some(a), _) => Some(a.clone()),
            (None, Some(n)) => Some(n.clone()),
            (None, None) => None,
        };
        entries.push(
            GroupPplDeputyMandateDebugEntry {
                deputy_id: d.id.clone(),
                full_name: display_name_of(d),
                group_label,
                mandat_assemblee_episode_count: d.mandat_assemblee_episodes.len(),
                mandat_assemblee_episodes: format_mandat_episode_labels(d),
            },
        );
        i += 1;
    }
    entries
}

/// The ids under which the audit counts the representatives, in order.
pub open spec fn pa_ids(deputes: Seq<Depute>) -> Seq<Seq<char>> {
    Seq::new(deputes.len(), |i: int| pa_id(deputes[i]))
}

/// The list holds, sorted, the ids that more than one representative has.
pub open spec fn are_duplicate_ids(list: Seq<String>, deputes: Seq<Depute>) -> bool {
    &&& strictly_sorted(list)
    &&& forall|key: Seq<char>|
        #[trigger] holds_text(list, key) <==> count_if(deputes, with_pa_id(key)) >= 2
}

fn duplicate_ids(deputes: &Vec<Depute>, normalized: &Vec<String>) -> (list: Vec<String>)
    requires
        normalized@.len() == deputes@.len(),
        forall|i: int|
            0 <= i < normalized@.len() ==> (#[trigger] normalized@[i])@ == pa_id(deputes@[i]),
    ensures
        are_duplicate_ids(list@, deputes@),
{
    let mut seen: Vec<String> = Vec::new();
    let mut twice: Vec<String> = Vec::new();
    let mut i: usize = 0;
    assert(deputes@.take(0).len() == 0);
    while i < deputes.len()
        invariant
            i <= deputes@.len(),
            normalized@.len() == deputes@.len(),
            forall|k: int|
                0 <= k < normalized@.len() ==> (#[trigger] normalized@[k])@ == pa_id(deputes@[k]),
            strictly_sorted(seen@),
            strictly_sorted(twice@),
            forall|key: Seq<char>|
                #[trigger] holds_text(seen@, key) <==> count_if(
                    deputes@.take(i as int),
                    with_pa_id(key),
                ) >= 1,
            forall|key: Seq<char>|
                #[trigger] holds_text(twice@, key) <==> count_if(
                    deputes@.take(i as int),
                    with_pa_id(key),
                ) >= 2,
        decreases deputes@.len() - i,
    {
        let id = &normalized[i];
        let ghost seen_before = seen@;
        let ghost twice_before = twice@;
        proof {
            assert forall|key: Seq<char>|
                count_if(deputes@.take(i + 1), with_pa_id(key)) == count_if(
                    deputes@.take(i as int),
                    with_pa_id(key),
                ) + if pa_id(deputes@[i as int]) == key {
                    1nat
                } else {
                    0nat
                } by {
                lemma_count_step(deputes@, i as int, with_pa_id(key));
            }
        }
        if sorted_holds(&seen, id) {
            sorted_insert(&mut twice, id);
        } else {
            sorted_insert(&mut seen, id);
        }
        proof {
            assert forall|key: Seq<char>| #[trigger]
                holds_text(seen@, key) <==> count_if(deputes@.take(i + 1), with_pa_id(key))
                    >= 1 by {
                assert(holds_text(seen_before, key) <==> count_if(
                    deputes@.take(i as int),
                    with_pa_id(key),
                ) >= 1);
            }
            assert forall|key: Seq<char>| #[trigger]
                holds_text(twice@, key) <==> count_if(deputes@.take(i + 1), with_pa_id(key))
                    >= 2 by {
                assert(holds_text(twice_before, key) <==> count_if(
                    deputes@.take(i as int),
                    with_pa_id(key),
                ) >= 2);
                assert(holds_text(seen_before, key) <==> count_if(
                    deputes@.take(i as int),
                    with_pa_id(key),
                ) >= 1);
            }
        }
        i += 1;
    }
    assert(deputes@.take(deputes@.len() as int) == deputes@);
    twice
}

proof fn lemma_name_has_step(deputes: Seq<Depute>, i: int, name: Seq<char>, key: Seq<char>)
    requires
        0 <= i < deputes.len(),
    ensures
        name_has_id(deputes.take(i + 1), name, key) <==> name_has_id(deputes.take(i), name, key) || (
        filed_name(deputes[i]) == name && pa_id(deputes[i]) == key),
        name_has_display(deputes.take(i + 1), name, key) <==> name_has_display(
            deputes.take(i),
            name,
            key,
        ) || (filed_name(deputes[i]) == name && display_name(deputes[i]) == key),
{
    let head = deputes.take(i);
    let more = deputes.take(i + 1);
    assert(more[i] == deputes[i]);
    if name_has_id(head, name, key) {
        let j = choose|j: int|
            0 <= j < head.len() && filed_name(#[trigger] head[j]) == name && pa_id(head[j]) == key;
        assert(more[j] == head[j]);
    }
    if name_has_id(more, name, key) {
        let j = choose|j: int|
            0 <= j < more.len() && filed_name(#[trigger] more[j]) == name && pa_id(more[j]) == key;
        if j < i {
            assert(head[j] == more[j]);
        }
    }
    if name_has_display(head, name, key) {
        let j = choose|j: int|
            0 <= j < head.len() && filed_name(#[trigger] head[j]) == name && display_name(head[j])
                == key;
        assert(more[j] == head[j]);
    }
    if name_has_display(more, name, key) {
        let j = choose|j: int|
            0 <= j < more.len() && filed_name(#[trigger] more[j]) == name && display_name(more[j])
                == key;
        if j < i {
            assert(head[j] == more[j]);
        }
    }
}

/// The entries file the first `upto` representatives by name: one entry
/// for each name.
pub open spec fn files_by_name(
    entries: Seq<GroupPplDeputyIdDuplicateEntry>,
    deputes: Seq<Depute>,
) -> bool {
    &&& forall|k: int| 0 <= k < entries.len() ==> is_name_entry(#[trigger] entries[k], deputes)
    &&& forall|a: int, b: int|
        0 <= a < b < entries.len() ==> (#[trigger] entries[a]).normalized_name@ != (
        #[trigger] entries[b]).normalized_name@
    &&& forall|j: int|
        0 <= j < deputes.len() ==> exists|k: int|
            0 <= k < entries.len() && (#[trigger] entries[k]).normalized_name@ == filed_name(
                #[trigger] deputes[j],
            )
}

fn find_name(entries: &Vec<GroupPplDeputyIdDuplicateEntry>, name: &String) -> (r: Option<usize>)
    ensures
        match r {
            Some(k) => k < entries@.len() && entries@[k as int].normalized_name@ == name@,
            None => forall|k: int|
                0 <= k < entries@.len() ==> (#[trigger] entries@[k]).normalized_name@ != name@,
        },
{
    let mut k: usize = 0;
    while k < entries.len()
        invariant
            k <= entries@.len(),
            forall|x: int| 0 <= x < k ==> (#[trigger] entries@[x]).normalized_name@ != name@,
        decreases entries@.len() - k,
    {
        if entries[k].normalized_name == *name {
            return Some(k);
        }
        k += 1;
    }
    None
}

fn clone_list(list: &Vec<String>) -> (r: Vec<String>)
    ensures
        r@.len() == list@.len(),
        forall|i: int| 0 <= i < r@.len() ==> (#[trigger] r@[i])@ == list@[i]@,
        strictly_sorted(list@) ==> strictly_sorted(r@),
        forall|key: Seq<char>| #[trigger] holds_text(r@, key) <==> holds_text(list@, key),
{
    let mut r: Vec<String> = Vec::new();
    let mut i: usize = 0;
    while i < list.len()
        invariant
            i <= list@.len(),
            r@.len() == i,
            forall|k: int| 0 <= k < i ==> (#[trigger] r@[k])@ == list@[k]@,
        decreases list@.len() - i,
    {
        r.push(list[i].clone());
        i += 1;
    }
    proof {
        assert forall|key: Seq<char>| #[trigger] holds_text(r@, key) <==> holds_text(list@, key) by {
            if holds_text(r@, key) {
                let x = choose|x: int| 0 <= x < r@.len() && (#[trigger] r@[x])@ == key;
                assert(list@[x]@ == key);
            }
            if holds_text(list@, key) {
                let x = choose|x: int| 0 <= x < list@.len() && (#[trigger] list@[x])@ == key;
                assert(r@[x]@ == key);
            }
        }
        if strictly_sorted(list@) {
            assert forall|a: int, b: int| 0 <= a < b < r@.len() implies lex_lt(
                (#[trigger] r@[a])@,
                (#[trigger] r@[b])@,
            ) by {
                assert(lex_lt(list@[a]@, list@[b]@));
            }
        }
    }
    r
}

/// Files one more representative under their name.
fn file_deputy(
    entries: &mut Vec<GroupPplDeputyIdDuplicateEntry>,
    deputes: &Vec<Depute>,
    i: usize,
    id: &String,
)
    requires
        i < deputes@.len(),
        id@ == pa_id(deputes@[i as int]),
        files_by_name(old(entries)@, deputes@.take(i as int)),
    ensures
        files_by_name(final(entries)@, deputes@.take(i + 1)),
{
    let d = &deputes[i];
    let shown = display_name_of(d);
    let name = str_to_lowercase(shown.as_str());
    let ghost before = entries@;
    let ghost head = deputes@.take(i as int);
    let ghost more = deputes@.take(i + 1);
    proof {
        assert forall|n: Seq<char>, key: Seq<char>|
            (name_has_id(more, n, key) <==> name_has_id(head, n, key) || (filed_name(*d) == n
                && pa_id(*d) == key)) && (name_has_display(more, n, key) <==> name_has_display(
                head,
                n,
                key,
            ) || (filed_name(*d) == n && display_name(*d) == key)) by {
            lemma_name_has_step(deputes@, i as int, n, key);
        }
        assert(more[i as int] == *d);
    }
    match find_name(entries, &name) {
        Some(k) => {
            let mut ids = clone_list(&entries[k].pa_ids);
            let mut displays = clone_list(&entries[k].display_names);
            sorted_insert(&mut ids, id);
            sorted_insert(&mut displays, &shown);
            let e = GroupPplDeputyIdDuplicateEntry {
                normalized_name: name,
                display_names: displays,
                pa_ids: ids,
            };
            assert(is_name_entry(before[k as int], head));
            assert(is_name_entry(e, more)) by {
                assert forall|key: Seq<char>| #[trigger]
                    holds_text(e.pa_ids@, key) <==> name_has_id(more, e.normalized_name@, key) by {
                    assert(holds_text(before[k as int].pa_ids@, key) <==> name_has_id(
                        head,
                        e.normalized_name@,
                        key,
                    ));
                }
                assert forall|key: Seq<char>| #[trigger]
                    holds_text(e.display_names@, key) <==> name_has_display(
                        more,
                        e.normalized_name@,
                        key,
                    ) by {
                    assert(holds_text(before[k as int].display_names@, key) <==> name_has_display(
                        head,
                        e.normalized_name@,
                        key,
                    ));
                }
            }
            entries.set(k, e);
            proof {
                assert forall|x: int| 0 <= x < entries@.len() implies (
                #[trigger] entries@[x]).normalized_name@ == before[x].normalized_name@ by {}
                assert forall|x: int| 0 <= x < entries@.len() implies is_name_entry(
                    #[trigger] entries@[x],
                    more,
                ) by {
                    if x != k {
                        assert(entries@[x] == before[x]);
                        lemma_other_name(before[x], head, more, *d);
                    }
                }
                assert forall|j: int| 0 <= j < more.len() implies exists|x: int|
                    0 <= x < entries@.len() && (#[trigger] entries@[x]).normalized_name@
                        == filed_name(#[trigger] more[j]) by {
                    if j < i {
                        assert(head[j] == more[j]);
                        let x = choose|x: int|
                            0 <= x < before.len() && (#[trigger] before[x]).normalized_name@
                                == filed_name(head[j]);
                        assert(entries@[x].normalized_name@ == filed_name(more[j]));
                    } else {
                        assert(entries@[k as int].normalized_name@ == filed_name(more[j]));
                    }
                }
            }
        },
        None => {
            let mut ids: Vec<String> = Vec::new();
            let mut displays: Vec<String> = Vec::new();
            sorted_insert(&mut ids, id);
            sorted_insert(&mut displays, &shown);
            let e = GroupPplDeputyIdDuplicateEntry {
                normalized_name: name,
                display_names: displays,
                pa_ids: ids,
            };
            assert(is_name_entry(e, more)) by {
                assert forall|key: Seq<char>| !name_has_id(head, e.normalized_name@, key)
                    && !name_has_display(head, e.normalized_name@, key) by {
                    if name_has_id(head, e.normalized_name@, key) {
                        let j = choose|j: int|
                            0 <= j < head.len() && filed_name(#[trigger] head[j])
                                == e.normalized_name@ && pa_id(head[j]) == key;
                        let x = choose|x: int|
                            0 <= x < before.len() && (#[trigger] before[x]).normalized_name@
                                == filed_name(head[j]);
                        assert(false);
                    }
                    if name_has_display(head, e.normalized_name@, key) {
                        let j = choose|j: int|
                            0 <= j < head.len() && filed_name(#[trigger] head[j])
                                == e.normalized_name@ && display_name(head[j]) == key;
                        let x = choose|x: int|
                            0 <= x < before.len() && (#[trigger] before[x]).normalized_name@
                                == filed_name(head[j]);
                        assert(false);
                    }
                }
                assert forall|key: Seq<char>| #[trigger]
                    holds_text(e.pa_ids@, key) <==> name_has_id(more, e.normalized_name@, key) by {
                    assert(!holds_text(Seq::<String>::empty(), key));
                }
                assert forall|key: Seq<char>| #[trigger]
                    holds_text(e.display_names@, key) <==> name_has_display(
                        more,
                        e.normalized_name@,
                        key,
                    ) by {
                    assert(!holds_text(Seq::<String>::empty(), key));
                }
            }
            entries.push(e);
            proof {
                assert forall|x: int| 0 <= x < before.len() implies entries@[x] == before[x] by {}
                assert forall|x: int| 0 <= x < entries@.len() implies is_name_entry(
                    #[trigger] entries@[x],
                    more,
                ) by {
                    if x < before.len() {
                        lemma_other_name(before[x], head, more, *d);
                    }
                }
                assert forall|j: int| 0 <= j < more.len() implies exists|x: int|
                    0 <= x < entries@.len() && (#[trigger] entries@[x]).normalized_name@
                        == filed_name(#[trigger] more[j]) by {
                    if j < i {
                        assert(head[j] == more[j]);
                        let x = choose|x: int|
                            0 <= x < before.len() && (#[trigger] before[x]).normalized_name@
                                == filed_name(head[j]);
                        assert(entries@[x].normalized_name@ == filed_name(more[j]));
                    } else {
                        assert(entries@[before.len() as int].normalized_name@ == filed_name(
                            more[j],
                        ));
                    }
                }
            }
        },
    }
}

/// An entry under another name than that of the representative who is
/// added stays the entry of its name.
proof fn lemma_other_name(
    e: GroupPplDeputyIdDuplicateEntry,
    head: Seq<Depute>,
    more: Seq<Depute>,
    d: Depute,
)
    requires
        is_name_entry(e, head),
        e.normalized_name@ != filed_name(d),
        forall|n: Seq<char>, key: Seq<char>|
            (name_has_id(more, n, key) <==> name_has_id(head, n, key) || (filed_name(d) == n
                && pa_id(d) == key)) && (name_has_display(more, n, key) <==> name_has_display(
                head,
                n,
                key,
            ) || (filed_name(d) == n && display_name(d) == key)),
    ensures
        is_name_entry(e, more),
{
    assert forall|key: Seq<char>| #[trigger]
        holds_text(e.pa_ids@, key) <==> name_has_id(more, e.normalized_name@, key) by {
        assert(name_has_id(more, e.normalized_name@, key) <==> name_has_id(
            head,
            e.normalized_name@,
            key,
        ) || (filed_name(d) == e.normalized_name@ && pa_id(d) == key));
    }
    assert forall|key: Seq<char>| #[trigger]
        holds_text(e.display_names@, key) <==> name_has_display(more, e.normalized_name@, key) by {
        assert(name_has_display(more, e.normalized_name@, key) <==> name_has_display(
            head,
            e.normalized_name@,
            key,
        ) || (filed_name(d) == e.normalized_name@ && display_name(d) == key));
    }
}

/// The report states the audit of the representatives.
pub open spec fn is_audit_report(
    report: GroupPplDeputyIdAuditReport,
    deputes: Seq<Depute>,
    generated_at: Seq<char>,
) -> bool {
    &&& report.summary.version == 1
    &&& report.summary.generated_at@ == generated_at
    &&& report.summary.deputes_total == deputes.len()
    &&& report.summary.unique_pa_ids == crate::parser::distinct_texts(pa_ids(deputes)).len()
    &&& report.summary.duplicate_pa_id_entries == report.duplicate_pa_ids@.len()
    &&& report.summary.names_with_multiple_pa_ids == report.names_with_multiple_pa_ids@.len()
    &&& are_duplicate_ids(report.duplicate_pa_ids@, deputes)
    &&& are_name_entries(report.names_with_multiple_pa_ids@, deputes)
    &&& forall|k: int|
        0 <= k < report.names_with_multiple_pa_ids@.len() ==> (
        #[trigger] report.names_with_multiple_pa_ids@[k]).pa_ids@.len() > 1
    &&& forall|name: Seq<char>, a: Seq<char>, b: Seq<char>|
        a != b && #[trigger] name_has_id(deputes, name, a) && #[trigger] name_has_id(
            deputes,
            name,
            b,
        ) ==> exists|k: int|
            0 <= k < report.names_with_multiple_pa_ids@.len() && (
            #[trigger] report.names_with_multiple_pa_ids@[k]).normalized_name@ == name
    &&& exists|unsorted: Seq<GroupPplDeputyMandateDebugEntry>| #[trigger]
        are_deputy_entries(unsorted, deputes) && crate::sorting::is_sorted_rearrangement(
            report.deputies@,
            unsorted,
            deputy_entry_order(),
        )
}

pub open spec fn name_entry_leq(
    a: GroupPplDeputyIdDuplicateEntry,
    b: GroupPplDeputyIdDuplicateEntry,
) -> bool {
    crate::text::lex_le(a.normalized_name@, b.normalized_name@)
}

pub open spec fn name_entry_order() -> spec_fn(
    GroupPplDeputyIdDuplicateEntry,
    GroupPplDeputyIdDuplicateEntry,
) -> bool {
    |a: GroupPplDeputyIdDuplicateEntry, b: GroupPplDeputyIdDuplicateEntry| name_entry_leq(a, b)
}

proof fn lemma_deputy_entry_order()
    ensures
        crate::sorting::total_preorder(deputy_entry_order()),
{
    let leq = deputy_entry_order();
    assert forall|a: GroupPplDeputyMandateDebugEntry, b: GroupPplDeputyMandateDebugEntry| #[trigger]
        leq(a, b) || #[trigger] leq(b, a) by {
        crate::group_ppl_v1::lemma_name_id_order(
            (a.full_name@, a.deputy_id@),
            (b.full_name@, b.deputy_id@),
            (a.full_name@, a.deputy_id@),
        );
    }
    assert forall|
        a: GroupPplDeputyMandateDebugEntry,
        b: GroupPplDeputyMandateDebugEntry,
        c: GroupPplDeputyMandateDebugEntry,
    | #[trigger] leq(a, b) && #[trigger] leq(b, c) implies leq(a, c) by {
        crate::group_ppl_v1::lemma_name_id_order(
            (a.full_name@, a.deputy_id@),
            (b.full_name@, b.deputy_id@),
            (c.full_name@, c.deputy_id@),
        );
    }
}

/// The entries of the names that go with more than one id, sorted by name.
fn names_with_several_ids(deputes: &Vec<Depute>, normalized: &Vec<String>) -> (names: Vec<
    GroupPplDeputyIdDuplicateEntry,
>)
    requires
        normalized@.len() == deputes@.len(),
        forall|i: int|
            0 <= i < normalized@.len() ==> (#[trigger] normalized@[i])@ == pa_id(deputes@[i]),
    ensures
        are_name_entries(names@, deputes@),
        forall|k: int| 0 <= k < names@.len() ==> (#[trigger] names@[k]).pa_ids@.len() > 1,
        forall|name: Seq<char>, a: Seq<char>, b: Seq<char>|
            a != b && #[trigger] name_has_id(deputes@, name, a) && #[trigger] name_has_id(
                deputes@,
                name,
                b,
            ) ==> exists|k: int|
                0 <= k < names@.len() && (#[trigger] names@[k]).normalized_name@ == name,
{
    let mut all: Vec<GroupPplDeputyIdDuplicateEntry> = Vec::new();
    let mut i: usize = 0;
    assert(deputes@.take(0).len() == 0);
    while i < deputes.len()
        invariant
            i <= deputes@.len(),
            normalized@.len() == deputes@.len(),
            forall|k: int|
                0 <= k < normalized@.len() ==> (#[trigger] normalized@[k])@ == pa_id(deputes@[k]),
            files_by_name(all@, deputes@.take(i as int)),
        decreases deputes@.len() - i,
    {
        file_deputy(&mut all, deputes, i, &normalized[i]);
        i += 1;
    }
    assert(deputes@.take(deputes@.len() as int) == deputes@);
    let ghost unsorted = all@;
    proof {
        crate::text::lemma_lex_le_order();
    }
    let le = |a: &GroupPplDeputyIdDuplicateEntry, b: &GroupPplDeputyIdDuplicateEntry| -> (r: bool)
        ensures
            r == name_entry_leq(*a, *b),
        {
            proof {
                lemma_lex_total(a.normalized_name@, b.normalized_name@);
            }
            !str_lt(b.normalized_name.as_str(), a.normalized_name.as_str())
        };
    crate::sorting::sort_by(&mut all, le, Ghost(name_entry_order()));
    let ghost sorted = all@;
    proof {
        crate::sorting::lemma_rearranged(unsorted, sorted);
        assert(unsorted.no_duplicates()) by {
            assert forall|a: int, b: int|
                0 <= a < unsorted.len() && 0 <= b < unsorted.len() && a != b implies unsorted[a]
                != unsorted[b] by {
                if a < b {
                    assert(unsorted[a].normalized_name@ != unsorted[b].normalized_name@);
                } else {
                    assert(unsorted[b].normalized_name@ != unsorted[a].normalized_name@);
                }
            }
        }
        assert forall|k: int| 0 <= k < sorted.len() implies is_name_entry(
            #[trigger] sorted[k],
            deputes@,
        ) by {
            assert(unsorted.contains(sorted[k]));
        }
        assert forall|a: int, b: int| 0 <= a < b < sorted.len() implies lex_lt(
            (#[trigger] sorted[a]).normalized_name@,
            (#[trigger] sorted[b]).normalized_name@,
        ) by {
            assert(name_entry_order()(sorted[a], sorted[b]));
            assert(unsorted.contains(sorted[a]));
            assert(unsorted.contains(sorted[b]));
            let x = choose|x: int| 0 <= x < unsorted.len() && unsorted[x] == sorted[a];
            let y = choose|y: int| 0 <= y < unsorted.len() && unsorted[y] == sorted[b];
            assert(sorted[a] != sorted[b]);
            if x < y {
                assert(unsorted[x].normalized_name@ != unsorted[y].normalized_name@);
            } else {
                assert(unsorted[y].normalized_name@ != unsorted[x].normalized_name@);
            }
        }
    }
    let mut names: Vec<GroupPplDeputyIdDuplicateEntry> = Vec::new();
    let ghost mut origin: Seq<int> = Seq::empty();
    let mut k: usize = 0;
    while k < all.len()
        invariant
            k <= all@.len(),
            all@ == sorted,
            origin.len() == names@.len(),
            forall|x: int|
                0 <= x < names@.len() ==> 0 <= (#[trigger] origin[x]) < k && is_name_entry(
                    names@[x],
                    deputes@,
                ) && names@[x].normalized_name@ == sorted[origin[x]].normalized_name@
                    && names@[x].pa_ids@.len() > 1,
            forall|x: int, y: int|
                0 <= x < y < names@.len() ==> (#[trigger] origin[x]) < (#[trigger] origin[y]),
            forall|j: int|
                0 <= j < k && (#[trigger] sorted[j]).pa_ids@.len() > 1 ==> exists|x: int|
                    0 <= x < names@.len() && (#[trigger] names@[x]).normalized_name@
                        == sorted[j].normalized_name@,
            forall|j: int| 0 <= j < sorted.len() ==> is_name_entry(#[trigger] sorted[j], deputes@),
        decreases all@.len() - k,
    {
        let ghost before = names@;
        if all[k].pa_ids.len() > 1 {
            let e = GroupPplDeputyIdDuplicateEntry {
                normalized_name: all[k].normalized_name.clone(),
                display_names: clone_list(&all[k].display_names),
                pa_ids: clone_list(&all[k].pa_ids),
            };
            proof {
                assert(is_name_entry(sorted[k as int], deputes@));
                assert(is_name_entry(e, deputes@)) by {
                    assert forall|key: Seq<char>| #[trigger]
                        holds_text(e.pa_ids@, key) <==> name_has_id(
                            deputes@,
                            e.normalized_name@,
                            key,
                        ) by {
                        assert(holds_text(sorted[k as int].pa_ids@, key) <==> name_has_id(
                            deputes@,
                            e.normalized_name@,
                            key,
                        ));
                    }
                    assert forall|key: Seq<char>| #[trigger]
                        holds_text(e.display_names@, key) <==> name_has_display(
                            deputes@,
                            e.normalized_name@,
                            key,
                        ) by {
                        assert(holds_text(sorted[k as int].display_names@, key)
                            <==> name_has_display(deputes@, e.normalized_name@, key));
                    }
                }
            }
            names.push(e);
            proof {
                origin = origin.push(k as int);
                assert forall|x: int| 0 <= x < before.len() implies names@[x] == before[x] by {}
                assert forall|j: int|
                    0 <= j < k + 1 && (#[trigger] sorted[j]).pa_ids@.len() > 1 implies exists|
                    x: int,
                |
                    0 <= x < names@.len() && (#[trigger] names@[x]).normalized_name@
                        == sorted[j].normalized_name@ by {
                    if j < k {
                        let x = choose|x: int|
                            0 <= x < before.len() && (#[trigger] before[x]).normalized_name@
                                == sorted[j].normalized_name@;
                        assert(names@[x] == before[x]);
                    } else {
                        assert(names@[before.len() as int].normalized_name@
                            == sorted[j].normalized_name@);
                    }
                }
            }
        }
        k += 1;
    }
    proof {
        assert forall|x: int| 0 <= x < names@.len() implies is_name_entry(
            #[trigger] names@[x],
            deputes@,
        ) && names@[x].pa_ids@.len() > 1 by {
            assert(0 <= origin[x]);
        }
        assert forall|a: int, b: int| 0 <= a < b < names@.len() implies lex_lt(
            (#[trigger] names@[a]).normalized_name@,
            (#[trigger] names@[b]).normalized_name@,
        ) by {
            assert(origin[a] < origin[b]);
            assert(lex_lt(sorted[origin[a]].normalized_name@, sorted[origin[b]].normalized_name@));
        }
        assert forall|name: Seq<char>, a: Seq<char>, b: Seq<char>|
            a != b && #[trigger] name_has_id(deputes@, name, a) && #[trigger] name_has_id(
                deputes@,
                name,
                b,
            ) implies exists|x: int|
            0 <= x < names@.len() && (#[trigger] names@[x]).normalized_name@ == name by {
            let j = choose|j: int|
                0 <= j < deputes@.len() && filed_name(#[trigger] deputes@[j]) == name && pa_id(
                    deputes@[j],
                ) == a;
            let u = choose|u: int|
                0 <= u < unsorted.len() && (#[trigger] unsorted[u]).normalized_name@ == filed_name(
                    deputes@[j],
                );
            assert(sorted.contains(unsorted[u]));
            let s = choose|s: int| 0 <= s < sorted.len() && sorted[s] == unsorted[u];
            assert(is_name_entry(sorted[s], deputes@));
            assert(holds_text(sorted[s].pa_ids@, a));
            assert(holds_text(sorted[s].pa_ids@, b));
            let xa = choose|x: int|
                0 <= x < sorted[s].pa_ids@.len() && (#[trigger] sorted[s].pa_ids@[x])@ == a;
            let xb = choose|x: int|
                0 <= x < sorted[s].pa_ids@.len() && (#[trigger] sorted[s].pa_ids@[x])@ == b;
            assert(xa != xb);
            assert(sorted[s].pa_ids@.len() > 1);
        }
    }
    names
}

/// The audit of the ids and names of the representatives.
pub fn build_deputy_id_audit_report(deputes: &Vec<Depute>, generated_at_iso: &str) -> (report:
    GroupPplDeputyIdAuditReport)
    ensures
        is_audit_report(report, deputes@, generated_at_iso@),
{
    let normalized = crate::group_ppl_v1::normalized_ids(deputes);
    proof {
        assert(crate::parser::texts(normalized@) =~= pa_ids(deputes@));
    }
    let unique_pa_ids = crate::parser::count_distinct(&normalized);
    let duplicate_pa_ids = duplicate_ids(deputes, &normalized);
    let names = names_with_several_ids(deputes, &normalized);
    let mut deputies = deputy_entries(deputes);
    let ghost unsorted = deputies@;
    proof {
        lemma_deputy_entry_order();
    }
    let le = |a: &GroupPplDeputyMandateDebugEntry, b: &GroupPplDeputyMandateDebugEntry| -> (r: bool)
        ensures
            r == deputy_entry_leq(*a, *b),
        {
            name_id_not_after(
                a.full_name.as_str(),
                a.deputy_id.as_str(),
                b.full_name.as_str(),
                b.deputy_id.as_str(),
            )
        };
    crate::sorting::sort_by(&mut deputies, le, Ghost(deputy_entry_order()));
    proof {
        assert(are_deputy_entries(unsorted, deputes@) && crate::sorting::is_sorted_rearrangement(
            deputies@,
            unsorted,
            deputy_entry_order(),
        ));
    }
    GroupPplDeputyIdAuditReport {
        summary: GroupPplDeputyIdAuditSummary {
            version: 1,
            generated_at: generated_at_iso.to_string(),
            deputes_total: deputes.len(),
            unique_pa_ids,
            duplicate_pa_id_entries: duplicate_pa_ids.len(),
            names_with_multiple_pa_ids: names.len(),
        },
        duplicate_pa_ids,
        names_with_multiple_pa_ids: names,
        deputies,
    }
}

} // verus!
