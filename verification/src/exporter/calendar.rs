//! The calendar of the amendments: the events of their life cycle, day by
//! day, in a file for each month.

use vstd::prelude::*;
use crate::dates::{date_text, month_text, Date};
use crate::models::{clone_texts, Amendement};
use crate::parser::texts;
use crate::sorting::{sort_by, stable_sorted, total_preorder};
use crate::text::{clone_opt, lemma_lex_le_order, lemma_lex_total, lex_le, opt_text, str_lt};

verus! {

/// What happened to an amendment on a day.
#[derive(Debug, Clone, Copy, PartialEq, Eq, Structural)]
pub enum EventKind {
    Depot,
    Circulation,
    Examen,
    Sort,
}

pub open spec fn kind_rank(k: EventKind) -> int {
    match k {
        EventKind::Depot => 0,
        EventKind::Circulation => 1,
        EventKind::Examen => 2,
        EventKind::Sort => 3,
    }
}

pub open spec fn kind_name(k: EventKind) -> Seq<char> {
    match k {
        EventKind::Depot => "DEPOT"@,
        EventKind::Circulation => "CIRCULATION"@,
        EventKind::Examen => "EXAMEN"@,
        EventKind::Sort => "SORT"@,
    }
}

/// The day on which the amendment had the event, if it had it.
pub open spec fn kind_date(a: Amendement, k: EventKind) -> Option<Date> {
    match k {
        EventKind::Depot => a.date_depot,
        EventKind::Circulation => a.date_circulation,
        EventKind::Examen => a.date_examen,
        EventKind::Sort => a.date_sort,
    }
}

/// An event of the calendar.
#[derive(Debug, Clone)]
pub struct AmendementEvent {
    /// `DEPOT`, `CIRCULATION`, `EXAMEN` or `SORT`.
    pub t: String,
    pub id: String,
    pub n: Option<String>,
    pub aid: Option<String>,
    pub aty: Option<String>,
    pub cos: Vec<String>,
    pub did: Option<String>,
    pub art: Option<String>,
    /// The outcome, for the event of the outcome.
    pub s: Option<String>,
    /// Whether the amendment was adopted, for the event of the outcome.
    pub ok: bool,
    pub mis: Option<String>,
    pub exp: Option<String>,
}

/// The event is that of the amendment.
pub open spec fn is_event(e: AmendementEvent, a: Amendement, k: EventKind) -> bool {
    &&& e.t@ == kind_name(k)
    &&& e.id@ == a.id@
    &&& opt_text(e.n) == opt_text(a.numero)
    &&& opt_text(e.aid) == opt_text(a.auteur_id)
    &&& opt_text(e.aty) == opt_text(a.auteur_type)
    &&& texts(e.cos@) == texts(a.cosignataires_ids@)
    &&& opt_text(e.did) == opt_text(a.dossier_ref)
    &&& opt_text(e.art) == opt_text(a.article)
    &&& opt_text(e.s) == if k == EventKind::Sort {
        opt_text(a.sort)
    } else {
        None
    }
    &&& e.ok == (k == EventKind::Sort && a.adopte)
    &&& opt_text(e.mis) == opt_text(a.mission_visee)
    &&& opt_text(e.exp) == opt_text(a.expose_sommaire)
}

/// An amendment without any dated event, as the calendar lists it.
#[derive(Debug, Clone)]
pub struct UndatedAmendement {
    pub id: String,
    pub n: Option<String>,
    pub aid: Option<String>,
    pub aty: Option<String>,
    pub cos: Vec<String>,
    pub did: Option<String>,
    pub art: Option<String>,
    pub s: Option<String>,
    pub ok: bool,
    pub mis: Option<String>,
    pub exp: Option<String>,
}

pub open spec fn is_undated(u: UndatedAmendement, a: Amendement) -> bool {
    &&& u.id@ == a.id@
    &&& opt_text(u.n) == opt_text(a.numero)
    &&& opt_text(u.aid) == opt_text(a.auteur_id)
    &&& opt_text(u.aty) == opt_text(a.auteur_type)
    &&& texts(u.cos@) == texts(a.cosignataires_ids@)
    &&& opt_text(u.did) == opt_text(a.dossier_ref)
    &&& opt_text(u.art) == opt_text(a.article)
    &&& opt_text(u.s) == opt_text(a.sort)
    &&& u.ok == a.adopte
    &&& opt_text(u.mis) == opt_text(a.mission_visee)
    &&& opt_text(u.exp) == opt_text(a.expose_sommaire)
}

/// An amendment has no dated event.
pub open spec fn has_no_date(a: Amendement) -> bool {
    a.date_depot is None && a.date_circulation is None && a.date_examen is None && a.date_sort
        is None
}

/// The place of an event in the calendar: its day, its kind, and the
/// position of its amendment.
#[derive(Debug, Clone, Copy)]
pub struct EventSlot {
    pub date: Date,
    pub kind: EventKind,
    pub amendement: usize,
}

pub open spec fn slot_of(a: Amendement, i: int, k: EventKind) -> Seq<EventSlot> {
    match kind_date(a, k) {
        Some(d) => seq![EventSlot { date: d, kind: k, amendement: i as usize }],
        None => Seq::empty(),
    }
}

/// The events of an amendment: deposit, circulation, examination and
/// outcome, as far as they are dated.
pub open spec fn slots_of_one(a: Amendement, i: int) -> Seq<EventSlot> {
    slot_of(a, i, EventKind::Depot) + slot_of(a, i, EventKind::Circulation) + slot_of(
        a,
        i,
        EventKind::Examen,
    ) + slot_of(a, i, EventKind::Sort)
}

/// The events of the amendments, in the order of the amendments.
pub open spec fn slots_of(amendements: Seq<Amendement>) -> Seq<EventSlot>
    decreases amendements.len(),
{
    if amendements.len() == 0 {
        Seq::empty()
    } else {
        slots_of(amendements.drop_last()) + slots_of_one(
            amendements.last(),
            amendements.len() - 1,
        )
    }
}

pub open spec fn slot_id(amendements: Seq<Amendement>, s: EventSlot) -> Seq<char> {
    if s.amendement < amendements.len() {
        amendements[s.amendement as int].id@
    } else {
        Seq::empty()
    }
}

/// The order of the events: by day, then by kind, then by the id of the
/// amendment.
pub open spec fn slot_leq(amendements: Seq<Amendement>, a: EventSlot, b: EventSlot) -> bool {
    a.date.day() < b.date.day() || (a.date.day() == b.date.day() && (kind_rank(a.kind) < kind_rank(
        b.kind,
    ) || (kind_rank(a.kind) == kind_rank(b.kind) && lex_le(
        slot_id(amendements, a),
        slot_id(amendements, b),
    ))))
}

pub open spec fn slot_order(amendements: Seq<Amendement>) -> spec_fn(EventSlot, EventSlot) -> bool {
    |a: EventSlot, b: EventSlot| slot_leq(amendements, a, b)
}

/// The events of the calendar in their order.
pub open spec fn calendar_slots(amendements: Seq<Amendement>) -> Seq<EventSlot> {
    stable_sorted(slots_of(amendements), slot_order(amendements))
}

/// The events of one day.
pub struct DaySlots {
    pub date: Date,
    pub slots: Vec<EventSlot>,
}

/// The events of one day, as values.
pub struct DayView {
    pub date: Date,
    pub slots: Seq<EventSlot>,
}

pub open spec fn day_view(d: DaySlots) -> DayView {
    DayView { date: d.date, slots: d.slots@ }
}

pub open spec fn day_views(days: Seq<DaySlots>) -> Seq<DayView> {
    Seq::new(days.len(), |i: int| day_view(days[i]))
}

/// The events grouped by day: each event joins the last day where it is of
/// that day, and opens a day of its own otherwise.
pub open spec fn by_day(slots: Seq<EventSlot>) -> Seq<DayView>
    decreases slots.len(),
{
    if slots.len() == 0 {
        Seq::empty()
    } else {
        let head = by_day(slots.drop_last());
        let s = slots.last();
        if head.len() > 0 && head.last().date == s.date {
            head.drop_last().push(DayView { date: s.date, slots: head.last().slots.push(s) })
        } else {
            head.push(DayView { date: s.date, slots: seq![s] })
        }
    }
}

/// The days of one month: those from position `start` up to `end`.
#[derive(Debug, Clone)]
pub struct MonthDays {
    pub month: String,
    pub start: usize,
    pub end: usize,
}

pub struct MonthView {
    pub month: Seq<char>,
    pub start: int,
    pub end: int,
}

pub open spec fn month_views(months: Seq<MonthDays>) -> Seq<MonthView> {
    Seq::new(
        months.len(),
        |i: int| MonthView { month: months[i].month@, start: months[i].start as int, end: months[i].end as int },
    )
}

/// The days grouped by month: each day joins the last month where it is
/// of that month, and opens a month of its own otherwise.
pub open spec fn by_month(days: Seq<DayView>) -> Seq<MonthView>
    decreases days.len(),
{
    if days.len() == 0 {
        Seq::empty()
    } else {
        let head = by_month(days.drop_last());
        let label = month_text(days.last().date.day());
        if head.len() > 0 && head.last().month == label {
            head.drop_last().push(MonthView { end: days.len() as int, ..head.last() })
        } else {
            head.push(MonthView { month: label, start: days.len() - 1, end: days.len() as int })
        }
    }
}

fn kind_order(k: EventKind) -> (r: u8)
    ensures
        r == kind_rank(k),
{
    match k {
        EventKind::Depot => 0,
        EventKind::Circulation => 1,
        EventKind::Examen => 2,
        EventKind::Sort => 3,
    }
}

fn slot_not_after(amendements: &Vec<Amendement>, a: &EventSlot, b: &EventSlot) -> (r: bool)
    ensures
        r == slot_leq(amendements@, *a, *b),
{
    if a.date.before(&b.date) {
        return true;
    }
    if b.date.before(&a.date) {
        return false;
    }
    let ka = kind_order(a.kind);
    let kb = kind_order(b.kind);
    if ka != kb {
        return ka < kb;
    }
    let empty = String::new();
    let ia = if a.amendement < amendements.len() {
        &amendements[a.amendement].id
    } else {
        &empty
    };
    let ib = if b.amendement < amendements.len() {
        &amendements[b.amendement].id
    } else {
        &empty
    };
    proof {
        lemma_lex_total(ia@, ib@);
    }
    !str_lt(ib.as_str(), ia.as_str())
}

proof fn lemma_slot_order(amendements: Seq<Amendement>)
    ensures
        total_preorder(slot_order(amendements)),
{
    lemma_lex_le_order();
    let leq = slot_order(amendements);
    assert forall|a: EventSlot, b: EventSlot| #[trigger] leq(a, b) || #[trigger] leq(b, a) by {
        assert(lex_le(slot_id(amendements, a), slot_id(amendements, b)) || lex_le(
            slot_id(amendements, b),
            slot_id(amendements, a),
        ));
    }
    assert forall|a: EventSlot, b: EventSlot, c: EventSlot| #[trigger]
        leq(a, b) && #[trigger] leq(b, c) implies leq(a, c) by {
        if a.date.day() == b.date.day() && b.date.day() == c.date.day() && kind_rank(a.kind)
            == kind_rank(b.kind) && kind_rank(b.kind) == kind_rank(c.kind) {
            assert(lex_le(slot_id(amendements, a), slot_id(amendements, b)) && lex_le(
                slot_id(amendements, b),
                slot_id(amendements, c),
            ));
        }
    }
}

fn add_slot(slots: &mut Vec<EventSlot>, date: &Option<Date>, kind: EventKind, i: usize, Ghost(a): Ghost<Amendement>)
    requires
        *date == kind_date(a, kind),
    ensures
        final(slots)@ == old(slots)@ + slot_of(a, i as int, kind),
{
    match date {
        Some(d) => {
            slots.push(EventSlot { date: *d, kind, amendement: i });
            assert(slots@ =~= old(slots)@ + slot_of(a, i as int, kind));
        },
        None => {
            assert(slots@ =~= old(slots)@ + slot_of(a, i as int, kind));
        },
    }
}

fn add_slots(slots: &mut Vec<EventSlot>, a: &Amendement, i: usize)
    ensures
        final(slots)@ == old(slots)@ + slots_of_one(*a, i as int),
{
    let ghost s0 = slots@;
    add_slot(slots, &a.date_depot, EventKind::Depot, i, Ghost(*a));
    let ghost s1 = slots@;
    add_slot(slots, &a.date_circulation, EventKind::Circulation, i, Ghost(*a));
    let ghost s2 = slots@;
    add_slot(slots, &a.date_examen, EventKind::Examen, i, Ghost(*a));
    let ghost s3 = slots@;
    add_slot(slots, &a.date_sort, EventKind::Sort, i, Ghost(*a));
    proof {
        let x = i as int;
        let d = slot_of(*a, x, EventKind::Depot);
        let c = slot_of(*a, x, EventKind::Circulation);
        let e = slot_of(*a, x, EventKind::Examen);
        let s = slot_of(*a, x, EventKind::Sort);
        assert(s1 == s0 + d);
        assert(s2 == s1 + c);
        assert(s3 == s2 + e);
        assert(slots@ == s3 + s);
        assert(((s0 + d) + c) + e + s =~= s0 + (d + c + e + s));
    }
}

/// The events of the calendar in their order.
pub fn sorted_slots(amendements: &Vec<Amendement>) -> (slots: Vec<EventSlot>)
    ensures
        slots@ == calendar_slots(amendements@),
{
    let mut slots: Vec<EventSlot> = Vec::new();
    let mut i: usize = 0;
    assert(amendements@.take(0).len() == 0);
    while i < amendements.len()
        invariant
            i <= amendements@.len(),
            slots@ == slots_of(amendements@.take(i as int)),
        decreases amendements@.len() - i,
    {
        let a = &amendements[i];
        let ghost before = slots@;
        proof {
            assert(amendements@.take(i + 1).drop_last() == amendements@.take(i as int));
            assert(amendements@.take(i + 1).last() == *a);
            assert(amendements@.take(i + 1).len() - 1 == i);
        }
        add_slots(&mut slots, a, i);
        i += 1;
    }
    assert(amendements@.take(amendements@.len() as int) == amendements@);
    proof {
        lemma_slot_order(amendements@);
    }
    let le = |a: &EventSlot, b: &EventSlot| -> (r: bool)
        ensures
            r == slot_leq(amendements@, *a, *b),
        { slot_not_after(amendements, a, b) };
    sort_by(&mut slots, le, Ghost(slot_order(amendements@)));
    slots
}

/// Groups the events by day.
pub fn group_by_day(slots: &Vec<EventSlot>) -> (days: Vec<DaySlots>)
    ensures
        day_views(days@) == by_day(slots@),
{
    let mut days: Vec<DaySlots> = Vec::new();
    let mut i: usize = 0;
    assert(slots@.take(0).len() == 0);
    assert(day_views(days@) =~= by_day(slots@.take(0)));
    while i < slots.len()
        invariant
            i <= slots@.len(),
            day_views(days@) == by_day(slots@.take(i as int)),
        decreases slots@.len() - i,
    {
        let s = slots[i];
        let ghost before = days@;
        let ghost head = by_day(slots@.take(i as int));
        proof {
            assert(slots@.take(i + 1).drop_last() == slots@.take(i as int));
            assert(slots@.take(i + 1).last() == s);
            if before.len() > 0 {
                assert(head.last() == day_view(before[before.len() - 1]));
            }
        }
        let n = days.len();
        let joins = n > 0 && days[n - 1].date.same_day(&s.date);
        if joins {
            match days.pop() {
                Some(last) => {
                    let mut last = last;
                    last.slots.push(s);
                    days.push(last);
                    proof {
                        assert(day_views(days@) =~= head.drop_last().push(
                            DayView { date: s.date, slots: head.last().slots.push(s) },
                        ));
                    }
                },
                None => {},
            }
        } else {
            let mut only: Vec<EventSlot> = Vec::new();
            only.push(s);
            days.push(DaySlots { date: s.date, slots: only });
            proof {
                assert(day_views(days@) =~= head.push(DayView { date: s.date, slots: seq![s] }));
            }
        }
        i += 1;
    }
    assert(slots@.take(slots@.len() as int) == slots@);
    days
}

/// Groups the days by month.
pub fn group_by_month(days: &Vec<DaySlots>) -> (months: Vec<MonthDays>)
    ensures
        month_views(months@) == by_month(day_views(days@)),
{
    let ghost views = day_views(days@);
    let mut months: Vec<MonthDays> = Vec::new();
    let mut i: usize = 0;
    assert(views.take(0).len() == 0);
    assert(month_views(months@) =~= by_month(views.take(0)));
    while i < days.len()
        invariant
            i <= days@.len(),
            views == day_views(days@),
            month_views(months@) == by_month(views.take(i as int)),
        decreases days@.len() - i,
    {
        let label = days[i].date.month_label();
        let ghost before = months@;
        let ghost head = by_month(views.take(i as int));
        proof {
            assert(views.take(i + 1).drop_last() == views.take(i as int));
            assert(views.take(i + 1).last() == day_view(days@[i as int]));
            assert(views.take(i + 1).len() == i + 1);
            if before.len() > 0 {
                assert(head.last() == month_views(before)[before.len() - 1]);
            }
        }
        let n = months.len();
        let joins = n > 0 && months[n - 1].month == label;
        if joins {
            match months.pop() {
                Some(last) => {
                    months.push(MonthDays { month: last.month, start: last.start, end: i + 1 });
                    proof {
                        assert(month_views(months@) =~= head.drop_last().push(
                            MonthView { end: (i + 1) as int, ..head.last() },
                        ));
                    }
                },
                None => {},
            }
        } else {
            months.push(MonthDays { month: label, start: i, end: i + 1 });
            proof {
                assert(month_views(months@) =~= head.push(
                    MonthView { month: label@, start: i as int, end: (i + 1) as int },
                ));
            }
        }
        i += 1;
    }
    assert(views.take(views.len() as int) == views);
    months
}

/// The events of a day of the calendar.
#[derive(Debug, Clone)]
pub struct AmendementsDay {
    pub day: String,
    pub events: Vec<AmendementEvent>,
}

/// The file of a month of the calendar.
#[derive(Debug, Clone)]
pub struct AmendementsMonthFile {
    pub schema_version: u32,
    pub month: String,
    pub days: Vec<AmendementsDay>,
}

/// A month as the index of the calendar lists it.
#[derive(Debug, Clone)]
pub struct AmendementsMonthMeta {
    pub month: String,
    pub days: usize,
    pub events: usize,
}

/// The index of the calendar.
#[derive(Debug, Clone)]
pub struct AmendementsIndex {
    pub schema_version: u32,
    pub generated_at: String,
    pub months: Vec<AmendementsMonthMeta>,
    pub undated_count: usize,
    pub undated_file: String,
    pub notes: Vec<String>,
}

/// The calendar of the amendments: the index, a file for each month, and
/// the amendments without any dated event.
#[derive(Debug, Clone)]
pub struct AmendementsCalendar {
    pub index: AmendementsIndex,
    pub months: Vec<AmendementsMonthFile>,
    pub undated: Vec<UndatedAmendement>,
}

/// Every event is an event of one of the amendments.
pub open spec fn slots_in_range(slots: Seq<EventSlot>, n: nat) -> bool {
    forall|k: int| 0 <= k < slots.len() ==> (#[trigger] slots[k]).amendement < n
}

pub open spec fn days_in_range(days: Seq<DayView>, n: nat) -> bool {
    forall|d: int| 0 <= d < days.len() ==> slots_in_range((#[trigger] days[d]).slots, n)
}

/// The day holds the events of its slots, in order.
pub open spec fn is_day(d: AmendementsDay, v: DayView, amendements: Seq<Amendement>) -> bool {
    &&& d.day@ == date_text(v.date.day())
    &&& d.events@.len() == v.slots.len()
    &&& forall|e: int|
        0 <= e < v.slots.len() ==> is_event(
            #[trigger] d.events@[e],
            amendements[v.slots[e].amendement as int],
            v.slots[e].kind,
        )
}

/// The file holds the days of its month, in order.
pub open spec fn is_month_file(
    f: AmendementsMonthFile,
    m: MonthView,
    days: Seq<DayView>,
    amendements: Seq<Amendement>,
) -> bool {
    &&& f.schema_version == 1
    &&& f.month@ == m.month
    &&& f.days@.len() == m.end - m.start
    &&& forall|d: int|
        0 <= d < f.days@.len() ==> is_day(#[trigger] f.days@[d], days[m.start + d], amendements)
}

/// How many events a day holds.
pub open spec fn events_of_day() -> spec_fn(DayView) -> nat {
    |d: DayView| d.slots.len()
}

/// The entry of the index states the month: its days and its events.
pub open spec fn is_meta(meta: AmendementsMonthMeta, m: MonthView, days: Seq<DayView>) -> bool {
    &&& meta.month@ == m.month
    &&& meta.days == m.end - m.start
    &&& meta.events == crate::group_ppl_v1::capped(
        crate::counting::sum_of(days.subrange(m.start, m.end), events_of_day()),
    )
}

/// The positions of the amendments without any dated event.
pub open spec fn undated_positions(amendements: Seq<Amendement>) -> Seq<int>
    decreases amendements.len(),
{
    if amendements.len() == 0 {
        Seq::empty()
    } else {
        let head = undated_positions(amendements.drop_last());
        if has_no_date(amendements.last()) {
            head.push(amendements.len() - 1)
        } else {
            head
        }
    }
}

/// The months of the days are ranges of days, one after the other.
pub open spec fn months_in_range(months: Seq<MonthView>, n: nat) -> bool {
    forall|m: int|
        0 <= m < months.len() ==> 0 <= (#[trigger] months[m]).start < months[m].end <= n
}

/// The calendar is that of the amendments: the events in order, grouped by
/// day and by month; the index lists the months, the latest first.
pub open spec fn is_calendar(
    c: AmendementsCalendar,
    amendements: Seq<Amendement>,
    generated_at: Seq<char>,
) -> bool {
    let days = by_day(calendar_slots(amendements));
    let months = by_month(days);
    &&& c.months@.len() == months.len()
    &&& forall|m: int|
        0 <= m < months.len() ==> is_month_file(#[trigger] c.months@[m], months[m], days, amendements)
    &&& c.index.schema_version == 1
    &&& c.index.generated_at@ == generated_at
    &&& c.index.months@.len() == months.len()
    &&& forall|k: int|
        0 <= k < months.len() ==> is_meta(
            #[trigger] c.index.months@[k],
            months[months.len() - 1 - k],
            days,
        )
    &&& c.index.undated_count == c.undated@.len()
    &&& c.index.undated_file@ == "data/amendements/undated.json"@
    &&& texts(c.index.notes@) == calendar_notes()
    &&& c.undated@.len() == undated_positions(amendements).len()
    &&& forall|k: int|
        0 <= k < c.undated@.len() ==> is_undated(
            #[trigger] c.undated@[k],
            amendements[undated_positions(amendements)[k]],
        )
}

/// What the index tells its readers about the calendar.
pub open spec fn calendar_notes() -> Seq<Seq<char>> {
    seq![
        "Chaque ligne est un \u{e9}v\u{e8}nement dat\u{e9} issu du cycle de vie open data (DEPOT / EXAMEN / SORT / CIRCULATION)."@,
        "Certaines dates sont absentes dans l'open data : ces amendements sont compt\u{e9}s dans undated.json."@,
        "Les \u{e9}v\u{e8}nements sont shard\u{e9}s par mois dans data/amendements/months/YYYY-MM.json."@,
    ]
}

fn kind_label(k: EventKind) -> (r: String)
    ensures
        r@ == kind_name(k),
{
    match k {
        EventKind::Depot => "DEPOT".to_string(),
        EventKind::Circulation => "CIRCULATION".to_string(),
        EventKind::Examen => "EXAMEN".to_string(),
        EventKind::Sort => "SORT".to_string(),
    }
}

/// The event of an amendment.
pub fn make_event(a: &Amendement, k: EventKind) -> (e: AmendementEvent)
    ensures
        is_event(e, *a, k),
{
    let is_sort = match k {
        EventKind::Sort => true,
        _ => false,
    };
    AmendementEvent {
        t: kind_label(k),
        id: a.id.clone(),
        n: clone_opt(&a.numero),
        aid: clone_opt(&a.auteur_id),
        aty: clone_opt(&a.auteur_type),
        cos: clone_texts(&a.cosignataires_ids),
        did: clone_opt(&a.dossier_ref),
        art: clone_opt(&a.article),
        s: if is_sort {
            clone_opt(&a.sort)
        } else {
            None
        },
        ok: is_sort && a.adopte,
        mis: clone_opt(&a.mission_visee),
        exp: clone_opt(&a.expose_sommaire),
    }
}

fn make_day(day: &DaySlots, amendements: &Vec<Amendement>) -> (d: AmendementsDay)
    requires
        slots_in_range(day.slots@, amendements@.len()),
    ensures
        is_day(d, day_view(*day), amendements@),
{
    let mut events: Vec<AmendementEvent> = Vec::new();
    let mut e: usize = 0;
    while e < day.slots.len()
        invariant
            e <= day.slots@.len(),
            slots_in_range(day.slots@, amendements@.len()),
            events@.len() == e,
            forall|k: int|
                0 <= k < e ==> is_event(
                    #[trigger] events@[k],
                    amendements@[day.slots@[k].amendement as int],
                    day.slots@[k].kind,
                ),
        decreases day.slots@.len() - e,
    {
        let s = day.slots[e];
        assert(day.slots@[e as int].amendement < amendements@.len());
        events.push(make_event(&amendements[s.amendement], s.kind));
        e += 1;
    }
    AmendementsDay { day: day.date.to_text(), events }
}

fn make_month(m: &MonthDays, days: &Vec<DaySlots>, amendements: &Vec<Amendement>) -> (r: (
    AmendementsMonthFile,
    AmendementsMonthMeta,
))
    requires
        m.start < m.end <= days@.len(),
        days_in_range(day_views(days@), amendements@.len()),
    ensures
        is_month_file(
            r.0,
            MonthView { month: m.month@, start: m.start as int, end: m.end as int },
            day_views(days@),
            amendements@,
        ),
        is_meta(
            r.1,
            MonthView { month: m.month@, start: m.start as int, end: m.end as int },
            day_views(days@),
        ),
{
    let ghost views = day_views(days@);
    let ghost part = views.subrange(m.start as int, m.end as int);
    let ghost f = events_of_day();
    let mut out: Vec<AmendementsDay> = Vec::new();
    let mut events: usize = 0;
    let mut d: usize = m.start;
    assert(part.take(0).len() == 0);
    while d < m.end
        invariant
            m.start <= d <= m.end <= days@.len(),
            views == day_views(days@),
            part == views.subrange(m.start as int, m.end as int),
            f == events_of_day(),
            days_in_range(views, amendements@.len()),
            out@.len() == d - m.start,
            forall|k: int|
                0 <= k < out@.len() ==> is_day(#[trigger] out@[k], views[m.start + k], amendements@),
            events == crate::group_ppl_v1::capped(
                crate::counting::sum_of(part.take(d - m.start), f),
            ),
        decreases m.end - d,
    {
        proof {
            crate::counting::lemma_sum_step(part, d - m.start, f);
            assert(part[d - m.start] == views[d as int]);
            assert(views[d as int] == day_view(days@[d as int]));
            assert(slots_in_range(views[d as int].slots, amendements@.len()));
        }
        out.push(make_day(&days[d], amendements));
        events =
        crate::group_ppl_v1::add_capped(
            events,
            days[d].slots.len(),
            Ghost(crate::counting::sum_of(part.take(d - m.start), f)),
            Ghost(f(views[d as int])),
        );
        d += 1;
    }
    assert(part.take(part.len() as int) == part);
    (
        AmendementsMonthFile { schema_version: 1, month: m.month.clone(), days: out },
        AmendementsMonthMeta { month: m.month.clone(), days: m.end - m.start, events },
    )
}

proof fn lemma_slots_of_in_range(amendements: Seq<Amendement>)
    ensures
        slots_in_range(slots_of(amendements), amendements.len()),
    decreases amendements.len(),
{
    if amendements.len() > 0 {
        lemma_slots_of_in_range(amendements.drop_last());
        let head = slots_of(amendements.drop_last());
        let all = slots_of(amendements);
        assert forall|k: int| 0 <= k < all.len() implies (#[trigger] all[k]).amendement
            < amendements.len() by {
            if k < head.len() {
                assert(all[k] == head[k]);
            }
        }
    }
}

proof fn lemma_by_day_in_range(slots: Seq<EventSlot>, n: nat)
    requires
        slots_in_range(slots, n),
    ensures
        days_in_range(by_day(slots), n),
    decreases slots.len(),
{
    if slots.len() > 0 {
        assert(slots_in_range(slots.drop_last(), n)) by {
            assert forall|k: int| 0 <= k < slots.drop_last().len() implies (
            #[trigger] slots.drop_last()[k]).amendement < n by {
                assert(slots.drop_last()[k] == slots[k]);
            }
        }
        lemma_by_day_in_range(slots.drop_last(), n);
        let head = by_day(slots.drop_last());
        let days = by_day(slots);
        let s = slots.last();
        assert(s == slots[slots.len() - 1]);
        assert forall|d: int| 0 <= d < days.len() implies slots_in_range(
            (#[trigger] days[d]).slots,
            n,
        ) by {
            if d < days.len() - 1 {
                assert(days[d] == head[d]);
            } else if head.len() > 0 && head.last().date == s.date {
                let prev = head.last().slots;
                assert(slots_in_range(head[head.len() - 1].slots, n));
                assert forall|k: int| 0 <= k < days[d].slots.len() implies (
                #[trigger] days[d].slots[k]).amendement < n by {
                    if k < prev.len() {
                        assert(days[d].slots[k] == prev[k]);
                    }
                }
            }
        }
    }
}

proof fn lemma_by_month_in_range(days: Seq<DayView>)
    ensures
        months_in_range(by_month(days), days.len()),
    decreases days.len(),
{
    if days.len() > 0 {
        lemma_by_month_in_range(days.drop_last());
        let head = by_month(days.drop_last());
        let months = by_month(days);
        assert forall|m: int| 0 <= m < months.len() implies 0 <= (#[trigger] months[m]).start
            < months[m].end <= days.len() by {
            if m < months.len() - 1 {
                assert(months[m] == head[m]);
            } else if head.len() > 0 {
                assert(0 <= head[head.len() - 1].start < head[head.len() - 1].end);
            }
        }
    }
}

fn undated_of(a: &Amendement) -> (u: UndatedAmendement)
    ensures
        is_undated(u, *a),
{
    UndatedAmendement {
        id: a.id.clone(),
        n: clone_opt(&a.numero),
        aid: clone_opt(&a.auteur_id),
        aty: clone_opt(&a.auteur_type),
        cos: clone_texts(&a.cosignataires_ids),
        did: clone_opt(&a.dossier_ref),
        art: clone_opt(&a.article),
        s: clone_opt(&a.sort),
        ok: a.adopte,
        mis: clone_opt(&a.mission_visee),
        exp: clone_opt(&a.expose_sommaire),
    }
}

fn undated_amendements(amendements: &Vec<Amendement>) -> (out: Vec<UndatedAmendement>)
    ensures
        out@.len() == undated_positions(amendements@).len(),
        forall|k: int|
            0 <= k < out@.len() ==> is_undated(
                #[trigger] out@[k],
                amendements@[undated_positions(amendements@)[k]],
            ),
{
    let mut out: Vec<UndatedAmendement> = Vec::new();
    let mut i: usize = 0;
    assert(amendements@.take(0).len() == 0);
    while i < amendements.len()
        invariant
            i <= amendements@.len(),
            out@.len() == undated_positions(amendements@.take(i as int)).len(),
            forall|k: int|
                0 <= k < out@.len() ==> is_undated(
                    #[trigger] out@[k],
                    amendements@[undated_positions(amendements@.take(i as int))[k]],
                ),
        decreases amendements@.len() - i,
    {
        let a = &amendements[i];
        let ghost before = out@;
        let ghost pos = undated_positions(amendements@.take(i as int));
        proof {
            assert(amendements@.take(i + 1).drop_last() == amendements@.take(i as int));
            assert(amendements@.take(i + 1).last() == *a);
            assert(amendements@.take(i + 1).len() - 1 == i);
        }
        if a.date_depot.is_none() && a.date_circulation.is_none() && a.date_examen.is_none()
            && a.date_sort.is_none() {
            let u = undated_of(a);
            out.push(u);
            proof {
                let more = undated_positions(amendements@.take(i + 1));
                assert(more == pos.push(i as int));
                assert forall|k: int| 0 <= k < out@.len() implies is_undated(
                    #[trigger] out@[k],
                    amendements@[more[k]],
                ) by {
                    if k < before.len() {
                        assert(out@[k] == before[k]);
                        assert(more[k] == pos[k]);
                    } else {
                        assert(out@[k] == u);
                    }
                }
            }
        } else {
            assert(undated_positions(amendements@.take(i + 1)) == pos);
        }
        i += 1;
    }
    assert(amendements@.take(amendements@.len() as int) == amendements@);
    out
}

fn notes() -> (r: Vec<String>)
    ensures
        texts(r@) == calendar_notes(),
{
    let mut r: Vec<String> = Vec::new();
    r.push(
        "Chaque ligne est un \u{e9}v\u{e8}nement dat\u{e9} issu du cycle de vie open data (DEPOT / EXAMEN / SORT / CIRCULATION).".to_string(),
    );
    r.push(
        "Certaines dates sont absentes dans l'open data : ces amendements sont compt\u{e9}s dans undated.json.".to_string(),
    );
    r.push(
        "Les \u{e9}v\u{e8}nements sont shard\u{e9}s par mois dans data/amendements/months/YYYY-MM.json.".to_string(),
    );
    assert(texts(r@) =~= calendar_notes());
    r
}

/// The calendar of the amendments.
pub fn amendements_calendar(amendements: &Vec<Amendement>, generated_at: &str) -> (c:
    AmendementsCalendar)
    ensures
        is_calendar(c, amendements@, generated_at@),
{
    let slots = sorted_slots(amendements);
    let days = group_by_day(&slots);
    let ranges = group_by_month(&days);
    let ghost day_list = by_day(calendar_slots(amendements@));
    let ghost months = by_month(day_list);
    proof {
        lemma_slots_of_in_range(amendements@);
        lemma_sorted_in_range(slots_of(amendements@), slot_order(amendements@), amendements@.len());
        lemma_by_day_in_range(slots@, amendements@.len());
        lemma_by_month_in_range(day_list);
    }
    let mut files: Vec<AmendementsMonthFile> = Vec::new();
    let mut metas: Vec<AmendementsMonthMeta> = Vec::new();
    let mut m: usize = 0;
    while m < ranges.len()
        invariant
            m <= ranges@.len(),
            day_list == day_views(days@),
            months == month_views(ranges@),
            months_in_range(months, day_list.len()),
            days_in_range(day_list, amendements@.len()),
            files@.len() == m,
            metas@.len() == m,
            forall|k: int|
                0 <= k < m ==> is_month_file(#[trigger] files@[k], months[k], day_list, amendements@),
            forall|k: int| 0 <= k < m ==> is_meta(#[trigger] metas@[k], months[k], day_list),
        decreases ranges@.len() - m,
    {
        proof {
            assert(0 <= months[m as int].start < months[m as int].end <= day_list.len());
            assert(months[m as int] == MonthView {
                month: ranges@[m as int].month@,
                start: ranges@[m as int].start as int,
                end: ranges@[m as int].end as int,
            });
        }
        let made = make_month(&ranges[m], &days, amendements);
        files.push(made.0);
        metas.push(made.1);
        m += 1;
    }
    // the index lists the latest month first
    let mut listed: Vec<AmendementsMonthMeta> = Vec::new();
    let ghost ordered = metas@;
    let n = metas.len();
    while metas.len() > 0
        invariant
            metas@.len() + listed@.len() == n,
            n == ordered.len(),
            metas@ == ordered.take(metas@.len() as int),
            forall|k: int| 0 <= k < listed@.len() ==> (#[trigger] listed@[k]) == ordered[n - 1 - k],
        decreases metas@.len(),
    {
        match metas.pop() {
            Some(meta) => {
                listed.push(meta);
                assert(metas@ == ordered.take(metas@.len() as int));
            },
            None => {},
        }
    }
    let undated = undated_amendements(amendements);
    let index = AmendementsIndex {
        schema_version: 1,
        generated_at: generated_at.to_string(),
        months: listed,
        undated_count: undated.len(),
        undated_file: "data/amendements/undated.json".to_string(),
        notes: notes(),
    };
    AmendementsCalendar { index, months: files, undated }
}

/// Sorting keeps every event an event of one of the amendments.
proof fn lemma_sorted_in_range(slots: Seq<EventSlot>, leq: spec_fn(EventSlot, EventSlot) -> bool, n: nat)
    requires
        slots_in_range(slots, n),
    ensures
        slots_in_range(stable_sorted(slots, leq), n),
    decreases slots.len(),
{
    if slots.len() > 0 {
        assert(slots_in_range(slots.drop_last(), n)) by {
            assert forall|k: int| 0 <= k < slots.drop_last().len() implies (
            #[trigger] slots.drop_last()[k]).amendement < n by {
                assert(slots.drop_last()[k] == slots[k]);
            }
        }
        lemma_sorted_in_range(slots.drop_last(), leq, n);
        assert(slots.last() == slots[slots.len() - 1]);
        lemma_insert_in_range(stable_sorted(slots.drop_last(), leq), slots.last(), leq, n);
    }
}

proof fn lemma_insert_in_range(list: Seq<EventSlot>, x: EventSlot, leq: spec_fn(EventSlot, EventSlot) -> bool, n: nat)
    requires
        slots_in_range(list, n),
        x.amendement < n,
    ensures
        slots_in_range(crate::sorting::insert_ranked(list, x, leq), n),
    decreases list.len(),
{
    if list.len() == 0 || leq(list.last(), x) {
        let out = list.push(x);
        assert forall|k: int| 0 <= k < out.len() implies (#[trigger] out[k]).amendement < n by {
            if k < list.len() {
                assert(out[k] == list[k]);
            }
        }
    } else {
        assert(slots_in_range(list.drop_last(), n)) by {
            assert forall|k: int| 0 <= k < list.drop_last().len() implies (
            #[trigger] list.drop_last()[k]).amendement < n by {
                assert(list.drop_last()[k] == list[k]);
            }
        }
        lemma_insert_in_range(list.drop_last(), x, leq, n);
        let inner = crate::sorting::insert_ranked(list.drop_last(), x, leq);
        let out = inner.push(list.last());
        assert(list.last() == list[list.len() - 1]);
        assert forall|k: int| 0 <= k < out.len() implies (#[trigger] out[k]).amendement < n by {
            if k < inner.len() {
                assert(out[k] == inner[k]);
            }
        }
    }
}

} // verus!
