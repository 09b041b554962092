//! The contact details of a representative: mail, telephone, web sites.

use vstd::prelude::*;
use crate::json::{one_or_many, Json};
use crate::models::SiteWebSource;
use crate::parser::records::{or_else, text_at};
use crate::parser::{
    holds_ignoring_case, normalize_phoneish, normalize_urlish, push_unique, site_rank,
    site_type_rank, texts, urlish,
};
use crate::sorting::{lemma_stable_sorted_map, sort_by, stable_sorted, total_preorder};
use crate::text::{
    clone_opt, collapse_whitespace, lemma_lex_total, lemma_lex_transitive, lex_lt, opt_eq, opt_text,
    str_eq, str_lt,
};

verus! {

/// What an address gives as its value: the filled text of `valElec`, else
/// that of `valeur`.
pub open spec fn address_value(adr: Json) -> Option<Seq<char>> {
    or_else(adr.at("valElec"@).filled_text(), adr.at("valeur"@).filled_text())
}

pub open spec fn address_kind(adr: Json) -> Seq<char> {
    match text_at(adr, "@xsi:type"@) {
        Some(s) => s,
        None => Seq::empty(),
    }
}

pub open spec fn is_mail(adr: Json) -> bool {
    address_kind(adr) == "AdresseMail_Type"@
}

pub open spec fn is_site(adr: Json) -> bool {
    address_kind(adr) == "AdresseSiteWeb_Type"@
}

pub open spec fn is_phone(adr: Json) -> bool {
    address_kind(adr) == "AdresseTelephonique_Type"@
}

/// The mail address of a representative: the value of the first mail
/// address that has one.
pub open spec fn email_of(adrs: Seq<Json>) -> Option<Seq<char>>
    decreases adrs.len(),
{
    if adrs.len() == 0 {
        None
    } else {
        match email_of(adrs.drop_last()) {
            Some(m) => Some(m),
            None => if is_mail(adrs.last()) {
                address_value(adrs.last())
            } else {
                None
            },
        }
    }
}

/// A list with one more text, unless the text is empty or the list holds
/// it already, whatever the case of its ASCII letters.
pub open spec fn with_unique(list: Seq<Seq<char>>, value: Seq<char>) -> Seq<Seq<char>> {
    if value.len() > 0 && !(exists|i: int|
        0 <= i < list.len() && crate::text::eq_ignore_ascii_case(#[trigger] list[i], value)) {
        list.push(value)
    } else {
        list
    }
}

/// The telephone numbers of a representative, each once.
pub open spec fn telephones_of(adrs: Seq<Json>) -> Seq<Seq<char>>
    decreases adrs.len(),
{
    if adrs.len() == 0 {
        Seq::empty()
    } else {
        let head = telephones_of(adrs.drop_last());
        match address_value(adrs.last()) {
            Some(v) => if is_phone(adrs.last()) {
                with_unique(head, collapse_whitespace(v))
            } else {
                head
            },
            None => head,
        }
    }
}

/// A web site of a representative as the registry gives it.
pub struct SiteView {
    pub rank: int,
    pub type_libelle: Option<Seq<char>>,
    pub val_elec: Seq<char>,
    pub url: Seq<char>,
}

pub open spec fn site_of(adr: Json, value: Seq<char>) -> SiteView {
    SiteView {
        rank: site_rank(
            match text_at(adr, "typeLibelle"@) {
                Some(s) => s,
                None => Seq::empty(),
            },
            match text_at(adr, "type"@) {
                Some(s) => s,
                None => Seq::empty(),
            },
        ),
        type_libelle: adr.at("typeLibelle"@).filled_text(),
        val_elec: value,
        url: urlish(value),
    }
}

/// The web sites among the addresses, in the order of the addresses.
pub open spec fn sites_of(adrs: Seq<Json>) -> Seq<SiteView>
    decreases adrs.len(),
{
    if adrs.len() == 0 {
        Seq::empty()
    } else {
        let head = sites_of(adrs.drop_last());
        match address_value(adrs.last()) {
            Some(v) => if is_site(adrs.last()) {
                head.push(site_of(adrs.last(), v))
            } else {
                head
            },
            None => head,
        }
    }
}

/// The order of the web addresses: by rank, then by address.
pub open spec fn site_leq(a: SiteView, b: SiteView) -> bool {
    a.rank < b.rank || (a.rank == b.rank && (lex_lt(a.url, b.url) || a.url == b.url))
}

/// The order of the sources of web addresses: by rank.
pub open spec fn source_leq(a: SiteView, b: SiteView) -> bool {
    a.rank <= b.rank
}

pub open spec fn site_order() -> spec_fn(SiteView, SiteView) -> bool {
    |a: SiteView, b: SiteView| site_leq(a, b)
}

pub open spec fn source_order() -> spec_fn(SiteView, SiteView) -> bool {
    |a: SiteView, b: SiteView| source_leq(a, b)
}

/// The addresses of the sites that have one, each once.
pub open spec fn unique_urls(sites: Seq<SiteView>) -> Seq<Seq<char>>
    decreases sites.len(),
{
    if sites.len() == 0 {
        Seq::empty()
    } else {
        let head = unique_urls(sites.drop_last());
        if sites.last().url.len() > 0 {
            with_unique(head, sites.last().url)
        } else {
            head
        }
    }
}

/// The web addresses of a representative: those of the sites, by rank and
/// address, each once.
pub open spec fn site_urls(adrs: Seq<Json>) -> Seq<Seq<char>> {
    unique_urls(stable_sorted(sites_of(adrs), site_order()))
}

/// What a source shows of a site.
pub struct SourceView {
    pub type_libelle: Option<Seq<char>>,
    pub val_elec: Seq<char>,
    pub url: Option<Seq<char>>,
}

pub open spec fn source_of(s: SiteView) -> SourceView {
    SourceView {
        type_libelle: s.type_libelle,
        val_elec: s.val_elec,
        url: if s.url.len() > 0 {
            Some(s.url)
        } else {
            None
        },
    }
}

/// The sources of a list, each once, where it first stands.
pub open spec fn unique_sources(sites: Seq<SiteView>) -> Seq<SourceView>
    decreases sites.len(),
{
    if sites.len() == 0 {
        Seq::empty()
    } else {
        let head = unique_sources(sites.drop_last());
        if head.contains(source_of(sites.last())) {
            head
        } else {
            head.push(source_of(sites.last()))
        }
    }
}

/// The sources of the web addresses of a representative: by rank, each
/// once.
pub open spec fn site_sources(adrs: Seq<Json>) -> Seq<SourceView> {
    unique_sources(stable_sorted(sites_of(adrs), source_order()))
}

pub open spec fn source_view(s: SiteWebSource) -> SourceView {
    SourceView { type_libelle: opt_text(s.type_libelle), val_elec: s.val_elec@, url: opt_text(s.url) }
}

pub open spec fn source_views(list: Seq<SiteWebSource>) -> Seq<SourceView> {
    Seq::new(list.len(), |i: int| source_view(list[i]))
}

/// The contact details of a representative.
pub struct Contact {
    pub email: Option<String>,
    pub telephones: Vec<String>,
    pub site_web: Option<String>,
    pub sites_web: Vec<String>,
    pub sites_web_sources: Vec<SiteWebSource>,
}

/// The contact details are those that the addresses give.
pub open spec fn is_contact(c: Contact, adrs: Seq<Json>) -> bool {
    &&& opt_text(c.email) == email_of(adrs)
    &&& texts(c.telephones@) == telephones_of(adrs)
    &&& texts(c.sites_web@) == site_urls(adrs)
    &&& opt_text(c.site_web) == if site_urls(adrs).len() > 0 {
        Some(site_urls(adrs)[0])
    } else {
        None
    }
    &&& source_views(c.sites_web_sources@) == site_sources(adrs)
}

/// A web site as it is read.
pub struct Site {
    pub rank: i32,
    pub type_libelle: Option<String>,
    pub val_elec: String,
    pub url: String,
}

pub open spec fn site_view(s: Site) -> SiteView {
    SiteView {
        rank: s.rank as int,
        type_libelle: opt_text(s.type_libelle),
        val_elec: s.val_elec@,
        url: s.url@,
    }
}

pub open spec fn to_view() -> spec_fn(Site) -> SiteView {
    |s: Site| site_view(s)
}

pub open spec fn site_views(list: Seq<Site>) -> Seq<SiteView> {
    list.map_values(to_view())
}

pub open spec fn read_site_order() -> spec_fn(Site, Site) -> bool {
    |a: Site, b: Site| site_leq(site_view(a), site_view(b))
}

pub open spec fn read_source_order() -> spec_fn(Site, Site) -> bool {
    |a: Site, b: Site| source_leq(site_view(a), site_view(b))
}

fn value_of(adr: &Json) -> (r: Option<String>)
    ensures
        opt_text(r) == address_value(*adr),
{
    match adr.get("valElec").opt_non_empty_str() {
        Some(s) => Some(s),
        None => adr.get("valeur").opt_non_empty_str(),
    }
}

fn text_or_empty(v: &Json) -> (r: String)
    ensures
        r@ == match v.text() {
            Some(s) => s,
            None => Seq::empty(),
        },
{
    match v.string() {
        Some(s) => s,
        None => String::new(),
    }
}

fn clone_site(s: &Site) -> (r: Site)
    ensures
        site_view(r) == site_view(*s),
{
    Site {
        rank: s.rank,
        type_libelle: clone_opt(&s.type_libelle),
        val_elec: s.val_elec.clone(),
        url: s.url.clone(),
    }
}

fn push_unique_text(list: &mut Vec<String>, value: String)
    ensures
        texts(final(list)@) == with_unique(texts(old(list)@), value@),
{
    let ghost before = list@;
    push_unique(list, value);
    proof {
        assert(holds_ignoring_case(before, value@) <==> (exists|i: int|
            0 <= i < texts(before).len() && crate::text::eq_ignore_ascii_case(
                #[trigger] texts(before)[i],
                value@,
            ))) by {
            if holds_ignoring_case(before, value@) {
                let i = choose|i: int|
                    0 <= i < before.len() && crate::text::eq_ignore_ascii_case(
                        (#[trigger] before[i])@,
                        value@,
                    );
                assert(texts(before)[i] == before[i]@);
            }
            if exists|i: int|
                0 <= i < texts(before).len() && crate::text::eq_ignore_ascii_case(
                    #[trigger] texts(before)[i],
                    value@,
                ) {
                let i = choose|i: int|
                    0 <= i < texts(before).len() && crate::text::eq_ignore_ascii_case(
                        #[trigger] texts(before)[i],
                        value@,
                    );
                assert(before[i]@ == texts(before)[i]);
            }
        }
        if value@.len() > 0 && !holds_ignoring_case(before, value@) {
            assert(texts(list@) =~= texts(before).push(value@));
        }
    }
}

fn site_not_after(a: &Site, b: &Site) -> (r: bool)
    ensures
        r == site_leq(site_view(*a), site_view(*b)),
{
    proof {
        lemma_lex_total(a.url@, b.url@);
    }
    a.rank < b.rank || (a.rank == b.rank && !str_lt(b.url.as_str(), a.url.as_str()))
}

proof fn lemma_site_orders()
    ensures
        total_preorder(read_site_order()),
        total_preorder(read_source_order()),
{
    let leq = read_site_order();
    assert forall|a: Site, b: Site| #[trigger] leq(a, b) || #[trigger] leq(b, a) by {
        lemma_lex_total(a.url@, b.url@);
    }
    assert forall|a: Site, b: Site, c: Site| #[trigger] leq(a, b) && #[trigger] leq(
        b,
        c,
    ) implies leq(a, c) by {
        if a.rank == b.rank && b.rank == c.rank && lex_lt(a.url@, b.url@) && lex_lt(b.url@, c.url@) {
            lemma_lex_transitive(a.url@, b.url@, c.url@);
        }
    }
}

fn same_source(a: &SiteWebSource, b: &Site) -> (r: bool)
    ensures
        r == (source_view(*a) == source_of(site_view(*b))),
{
    let url_same = match &a.url {
        Some(u) => !b.url.as_str().is_empty() && *u == b.url,
        None => b.url.as_str().is_empty(),
    };
    proof {
        let s = site_view(*b);
        if b.url@.len() == 0 {
            assert(source_of(s).url is None);
        } else {
            assert(source_of(s).url == Some(b.url@));
        }
    }
    opt_eq(&a.type_libelle, &b.type_libelle) && a.val_elec == b.val_elec && url_same
}

fn has_source(list: &Vec<SiteWebSource>, s: &Site) -> (r: bool)
    ensures
        r == source_views(list@).contains(source_of(site_view(*s))),
{
    let mut k: usize = 0;
    while k < list.len()
        invariant
            k <= list@.len(),
            forall|x: int|
                0 <= x < k ==> source_view(#[trigger] list@[x]) != source_of(site_view(*s)),
        decreases list@.len() - k,
    {
        if same_source(&list[k], s) {
            assert(source_views(list@)[k as int] == source_of(site_view(*s)));
            return true;
        }
        k += 1;
    }
    proof {
        if source_views(list@).contains(source_of(site_view(*s))) {
            let x = choose|x: int|
                0 <= x < source_views(list@).len() && source_views(list@)[x] == source_of(
                    site_view(*s),
                );
            assert(source_view(list@[x]) == source_views(list@)[x]);
        }
    }
    false
}

/// The contact details that the record of a representative gives.
pub fn read_contact(v: &Json) -> (c: Contact)
    ensures
        is_contact(c, v.at("adresses"@).at("adresse"@).items()),
{
    let adrs = one_or_many(v.get("adresses").get("adresse"));
    let ghost items = v.at("adresses"@).at("adresse"@).items();
    let mut email: Option<String> = None;
    let mut telephones: Vec<String> = Vec::new();
    let mut sites: Vec<Site> = Vec::new();
    let mut i: usize = 0;
    assert(texts(telephones@) =~= telephones_of(items.take(0)));
    assert(site_views(sites@) =~= sites_of(items.take(0)));
    while i < adrs.len()
        invariant
            i <= adrs@.len(),
            adrs@.len() == items.len(),
            forall|k: int| 0 <= k < adrs@.len() ==> *(#[trigger] adrs@[k]) == items[k],
            opt_text(email) == email_of(items.take(i as int)),
            texts(telephones@) == telephones_of(items.take(i as int)),
            site_views(sites@) == sites_of(items.take(i as int)),
        decreases adrs@.len() - i,
    {
        let adr = adrs[i];
        proof {
            assert(items.take(i + 1).drop_last() == items.take(i as int));
            assert(items.take(i + 1).last() == *adr);
            reveal_strlit("AdresseMail_Type");
            reveal_strlit("AdresseSiteWeb_Type");
            reveal_strlit("AdresseTelephonique_Type");
            assert("AdresseMail_Type"@.len() == 16);
            assert("AdresseSiteWeb_Type"@.len() == 19);
            assert("AdresseTelephonique_Type"@.len() == 24);
        }
        let kind = text_or_empty(adr.get("@xsi:type"));
        let value = value_of(adr);
        if str_eq(kind.as_str(), "AdresseMail_Type") {
            if email.is_none() {
                email = value;
            }
        } else if str_eq(kind.as_str(), "AdresseSiteWeb_Type") {
            match value {
                Some(raw) => {
                    let ghost before = sites@;
                    let rank = site_type_rank(
                        text_or_empty(adr.get("typeLibelle")).as_str(),
                        text_or_empty(adr.get("type")).as_str(),
                    );
                    let url = normalize_urlish(raw.as_str());
                    let site = Site {
                        rank,
                        type_libelle: adr.get("typeLibelle").opt_non_empty_str(),
                        val_elec: raw,
                        url,
                    };
                    sites.push(site);
                    assert(site_views(sites@) =~= site_views(before).push(site_view(site)));
                },
                None => {},
            }
        } else if str_eq(kind.as_str(), "AdresseTelephonique_Type") {
            match value {
                Some(raw) => {
                    push_unique_text(&mut telephones, normalize_phoneish(raw.as_str()));
                },
                None => {},
            }
        }
        i += 1;
    }
    assert(items.take(items.len() as int) == items);
    proof {
        lemma_site_orders();
    }
    let mut by_url: Vec<Site> = Vec::new();
    let mut k: usize = 0;
    while k < sites.len()
        invariant
            k <= sites@.len(),
            by_url@.len() == k,
            forall|x: int| 0 <= x < k ==> site_view(#[trigger] by_url@[x]) == site_view(sites@[x]),
        decreases sites@.len() - k,
    {
        by_url.push(clone_site(&sites[k]));
        k += 1;
    }
    assert(site_views(by_url@) =~= site_views(sites@));
    let ghost unsorted_url = by_url@;
    let le = |a: &Site, b: &Site| -> (r: bool)
        ensures
            r == site_leq(site_view(*a), site_view(*b)),
        { site_not_after(a, b) };
    sort_by(&mut by_url, le, Ghost(read_site_order()));
    proof {
        lemma_stable_sorted_map(unsorted_url, to_view(), read_site_order(), site_order());
    }
    let ghost ranked = site_views(by_url@);
    let mut sites_web: Vec<String> = Vec::new();
    let mut k: usize = 0;
    assert(texts(sites_web@) =~= unique_urls(ranked.take(0)));
    while k < by_url.len()
        invariant
            k <= by_url@.len(),
            ranked == site_views(by_url@),
            texts(sites_web@) == unique_urls(ranked.take(k as int)),
        decreases by_url@.len() - k,
    {
        proof {
            assert(ranked.take(k + 1).drop_last() == ranked.take(k as int));
            assert(ranked.take(k + 1).last() == site_view(by_url@[k as int]));
        }
        if !by_url[k].url.as_str().is_empty() {
            push_unique_text(&mut sites_web, by_url[k].url.clone());
        }
        k += 1;
    }
    assert(ranked.take(ranked.len() as int) == ranked);
    let ghost unsorted_rank = sites@;
    let by_rank = |a: &Site, b: &Site| -> (r: bool)
        ensures
            r == source_leq(site_view(*a), site_view(*b)),
        { a.rank <= b.rank };
    sort_by(&mut sites, by_rank, Ghost(read_source_order()));
    proof {
        lemma_stable_sorted_map(unsorted_rank, to_view(), read_source_order(), source_order());
    }
    let ghost sourced = site_views(sites@);
    let mut sources: Vec<SiteWebSource> = Vec::new();
    let mut k: usize = 0;
    assert(source_views(sources@) =~= unique_sources(sourced.take(0)));
    while k < sites.len()
        invariant
            k <= sites@.len(),
            sourced == site_views(sites@),
            source_views(sources@) == unique_sources(sourced.take(k as int)),
        decreases sites@.len() - k,
    {
        let ghost before = sources@;
        proof {
            assert(sourced.take(k + 1).drop_last() == sourced.take(k as int));
            assert(sourced.take(k + 1).last() == site_view(sites@[k as int]));
        }
        if !has_source(&sources, &sites[k]) {
            let s = &sites[k];
            let source = SiteWebSource {
                type_libelle: clone_opt(&s.type_libelle),
                val_elec: s.val_elec.clone(),
                url: if s.url.as_str().is_empty() {
                    None
                } else {
                    Some(s.url.clone())
                },
            };
            sources.push(source);
            assert(source_views(sources@) =~= source_views(before).push(
                source_of(site_view(sites@[k as int])),
            ));
        }
        k += 1;
    }
    assert(sourced.take(sourced.len() as int) == sourced);
    let site_web = if sites_web.len() > 0 {
        Some(sites_web[0].clone())
    } else {
        None
    };
    Contact { email, telephones, site_web, sites_web, sites_web_sources: sources }
}

} // verus!
