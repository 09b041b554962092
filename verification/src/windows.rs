//! Closed date intervals and the mandate windows of a representative.

use vstd::prelude::*;
use vstd::relations::{sorted_by, total_ordering};
use vstd::seq_lib::lemma_sorted_unique;
use crate::dates::{Date, lemma_date_by_day};
use crate::models::{Depute, MandatAssembleeEpisode};
use crate::sorting::{sort_by, total_preorder};

verus! {

/// The closed interval of the days from `start` to `end`.
#[derive(Debug, Clone, Copy)]
pub struct DateWindow {
    pub start: Date,
    pub end: Date,
}

impl DateWindow {
    /// The interval holds at least one day.
    pub open spec fn wf(self) -> bool {
        self.start.day() <= self.end.day()
    }

    pub open spec fn holds(self, d: Date) -> bool {
        self.start.day() <= d.day() <= self.end.day()
    }
}

/// The order of windows by start, then by end.
pub open spec fn window_leq(a: DateWindow, b: DateWindow) -> bool {
    a.start.day() < b.start.day() || (a.start.day() == b.start.day() && a.end.day()
        <= b.end.day())
}

pub open spec fn window_order() -> spec_fn(DateWindow, DateWindow) -> bool {
    |a: DateWindow, b: DateWindow| window_leq(a, b)
}

/// `w` follows the last window of `merged` in start order. It is joined to
/// that window when it overlaps it or begins on the day after its end, and
/// stands as a window of its own otherwise.
pub open spec fn absorb(merged: Seq<DateWindow>, w: DateWindow) -> Seq<DateWindow> {
    if merged.len() > 0 && w.start.day() <= merged.last().end.day() + 1 {
        let last = merged.last();
        merged.drop_last().push(
            DateWindow {
                start: last.start,
                end: if w.end.day() > last.end.day() {
                    w.end
                } else {
                    last.end
                },
            },
        )
    } else {
        merged.push(w)
    }
}

/// The windows of a list in start order, each joined to its predecessor
/// where the two touch.
pub open spec fn merge_sorted(s: Seq<DateWindow>) -> Seq<DateWindow>
    decreases s.len(),
{
    if s.len() == 0 {
        s
    } else {
        absorb(merge_sorted(s.drop_last()), s.last())
    }
}

/// The merge of a window list: its windows in order of start and end, with
/// overlapping and adjacent windows joined.
pub open spec fn merge(ws: Seq<DateWindow>) -> Seq<DateWindow> {
    merge_sorted(ws.sort_by(window_order()))
}

/// Every window holds a day, and between any window and a later one lies at
/// least one day that neither holds.
pub open spec fn separated(m: Seq<DateWindow>) -> bool {
    &&& forall|i: int| 0 <= i < m.len() ==> (#[trigger] m[i]).wf()
    &&& forall|i: int, j: int|
        0 <= i < j < m.len() ==> (#[trigger] m[i]).end.day() + 1 < (#[trigger] m[j]).start.day()
}

pub open spec fn all_wf(ws: Seq<DateWindow>) -> bool {
    forall|i: int| 0 <= i < ws.len() ==> (#[trigger] ws[i]).wf()
}

/// Some window of the list holds the day.
pub open spec fn in_windows(d: Date, ws: Seq<DateWindow>) -> bool {
    exists|i: int| 0 <= i < ws.len() && (#[trigger] ws[i]).holds(d)
}

pub proof fn lemma_window_order_total()
    ensures
        total_ordering(window_order()),
        total_preorder(window_order()),
{
    broadcast use lemma_date_by_day;

    let leq = window_order();
    assert forall|a: DateWindow, b: DateWindow| #[trigger] leq(a, b) && leq(b, a) implies a
        == b by {
        assert(a.start.day() == b.start.day());
        assert(a.end.day() == b.end.day());
        assert(a.start == b.start);
        assert(a.end == b.end);
    }
}

/// Between each window and the next lies at least one day that neither
/// holds.
pub open spec fn gapped(m: Seq<DateWindow>) -> bool {
    forall|i: int|
        0 <= i < m.len() - 1 ==> (#[trigger] m[i]).end.day() + 1 < m[i + 1].start.day()
}

/// Absorbing a window that follows the last in order keeps a list in
/// order and its windows from touching.
proof fn lemma_absorb_gapped(m: Seq<DateWindow>, w: DateWindow)
    requires
        gapped(m),
        sorted_by(m, window_order()),
        m.len() > 0 ==> window_leq(m.last(), w),
    ensures
        gapped(absorb(m, w)),
        sorted_by(absorb(m, w), window_order()),
        absorb(m, w).len() > 0,
        window_leq(absorb(m, w).last(), w),
{
    let r = absorb(m, w);
    if m.len() > 0 {
        assert forall|i: int| 0 <= i < m.len() implies window_leq(#[trigger] m[i], w) by {
            if i < m.len() - 1 {
                assert(window_order()(m[i], m[m.len() - 1]));
            }
        }
    }
    if m.len() > 0 && w.start.day() <= m.last().end.day() + 1 {
        let n = m.len() - 1;
        assert(r.len() == m.len());
        assert(r[n].start == m[n].start);
        assert(r[n].end.day() >= m[n].end.day());
        assert forall|i: int| 0 <= i < r.len() - 1 implies (#[trigger] r[i]).end.day() + 1 < r[i
            + 1].start.day() by {
            assert(r[i] == m[i]);
            assert(m[i].end.day() + 1 < m[i + 1].start.day());
        }
        assert forall|i: int, j: int| 0 <= i < j < r.len() implies window_order()(r[i], r[j]) by {
            assert(r[i] == m[i]);
            assert(window_order()(m[i], m[j]));
            if j < n {
                assert(r[j] == m[j]);
            }
        }
    } else {
        assert(r == m.push(w));
        assert forall|i: int| 0 <= i < r.len() - 1 implies (#[trigger] r[i]).end.day() + 1 < r[i
            + 1].start.day() by {
            assert(r[i] == m[i]);
            if i + 1 < m.len() {
                assert(r[i + 1] == m[i + 1]);
                assert(m[i].end.day() + 1 < m[i + 1].start.day());
            } else {
                assert(r[i + 1] == w);
                assert(m[i] == m.last());
            }
        }
        assert forall|i: int, j: int| 0 <= i < j < r.len() implies window_order()(r[i], r[j]) by {
            assert(r[i] == m[i]);
            if j < m.len() {
                assert(r[j] == m[j]);
                assert(window_order()(m[i], m[j]));
            } else {
                assert(r[j] == w);
                assert(window_leq(m[i], w));
            }
        }
    }
}

/// Joining the windows of a list in order leaves a list in order whose
/// windows do not touch, whatever the windows are.
proof fn lemma_merge_sorted_gapped(s: Seq<DateWindow>)
    requires
        sorted_by(s, window_order()),
    ensures
        gapped(merge_sorted(s)),
        sorted_by(merge_sorted(s), window_order()),
        s.len() > 0 ==> merge_sorted(s).len() > 0 && window_leq(merge_sorted(s).last(), s.last()),
        s.len() == 0 ==> merge_sorted(s).len() == 0,
    decreases s.len(),
{
    if s.len() > 0 {
        let head = s.drop_last();
        let w = s.last();
        assert(sorted_by(head, window_order())) by {
            assert forall|i: int, j: int| 0 <= i < j < head.len() implies window_order()(
                head[i],
                head[j],
            ) by {
                assert(head[i] == s[i] && head[j] == s[j]);
            }
        }
        lemma_merge_sorted_gapped(head);
        let m = merge_sorted(head);
        if m.len() > 0 {
            assert(window_order()(s[s.len() - 2], s[s.len() - 1]));
            assert(head.last() == s[s.len() - 2]);
            assert(window_leq(m.last(), head.last()));
            assert(window_leq(head.last(), w));
        }
        lemma_absorb_gapped(m, w);
    }
}

/// Joining changes nothing in a list whose windows do not touch.
proof fn lemma_gapped_is_fixed(m: Seq<DateWindow>)
    requires
        gapped(m),
    ensures
        merge_sorted(m) == m,
    decreases m.len(),
{
    if m.len() > 0 {
        let head = m.drop_last();
        assert(gapped(head)) by {
            assert forall|i: int| 0 <= i < head.len() - 1 implies (#[trigger] head[i]).end.day()
                + 1 < head[i + 1].start.day() by {
                assert(head[i] == m[i] && head[i + 1] == m[i + 1]);
                assert(m[i].end.day() + 1 < m[i + 1].start.day());
            }
        }
        lemma_gapped_is_fixed(head);
        if head.len() > 0 {
            assert(head.last() == m[m.len() - 2]);
            assert(m[m.len() - 2].end.day() + 1 < m[m.len() - 2 + 1].start.day());
        }
        assert(absorb(head, m.last()) == head.push(m.last()));
        assert(head.push(m.last()) == m);
    }
}

/// Joining windows that each hold a day gives windows that each hold a
/// day.
proof fn lemma_merge_sorted_wf(s: Seq<DateWindow>)
    requires
        all_wf(s),
    ensures
        all_wf(merge_sorted(s)),
    decreases s.len(),
{
    if s.len() > 0 {
        let head = s.drop_last();
        assert forall|i: int| 0 <= i < head.len() implies (#[trigger] head[i]).wf() by {
            assert(head[i] == s[i]);
        }
        lemma_merge_sorted_wf(head);
        let m = merge_sorted(head);
        let r = absorb(m, s.last());
        assert(s.last().wf());
        assert forall|i: int| 0 <= i < r.len() implies (#[trigger] r[i]).wf() by {
            if i < m.len() {
                assert(m[i].wf());
            }
        }
    }
}

/// In a list of windows that each hold a day and do not touch their
/// successor, a window ends before any later one begins.
proof fn lemma_gap_chain(m: Seq<DateWindow>, i: int, j: int)
    requires
        gapped(m),
        all_wf(m),
        0 <= i < j < m.len(),
    ensures
        m[i].end.day() + 1 < m[j].start.day(),
    decreases j - i,
{
    if j > i + 1 {
        lemma_gap_chain(m, i, j - 1);
        assert(m[j - 1].wf());
        assert(m[j - 1].end.day() + 1 < m[j - 1 + 1].start.day());
    } else {
        assert(m[i].end.day() + 1 < m[i + 1].start.day());
    }
}

/// The merge of a list of windows that each hold a day is sorted, and its
/// windows neither overlap nor touch.
pub proof fn lemma_merge_separated(ws: Seq<DateWindow>)
    requires
        all_wf(ws),
    ensures
        separated(merge(ws)),
        sorted_by(merge(ws), window_order()),
{
    lemma_window_order_total();
    ws.lemma_sort_by_ensures(window_order());
    let s = ws.sort_by(window_order());
    assert(all_wf(s)) by {
        assert forall|i: int| 0 <= i < s.len() implies (#[trigger] s[i]).wf() by {
            assert(s.contains(s[i]));
            assert(ws.contains(s[i]));
        }
    }
    lemma_merge_sorted_gapped(s);
    lemma_merge_sorted_wf(s);
    let m = merge(ws);
    assert forall|i: int, j: int| 0 <= i < j < m.len() implies (#[trigger] m[i]).end.day() + 1 < (
    #[trigger] m[j]).start.day() by {
        lemma_gap_chain(m, i, j);
    }
}

/// Merging is idempotent: the merge of a merged list is that list, for
/// every list of windows.
pub proof fn lemma_merge_idempotent(ws: Seq<DateWindow>)
    ensures
        merge(merge(ws)) == merge(ws),
{
    lemma_window_order_total();
    ws.lemma_sort_by_ensures(window_order());
    lemma_merge_sorted_gapped(ws.sort_by(window_order()));
    let m = merge(ws);
    lemma_gapped_is_fixed(m);
    m.lemma_sort_by_ensures(window_order());
    lemma_sorted_unique(m.sort_by(window_order()), m, window_order());
}

fn window_not_after(a: &DateWindow, b: &DateWindow) -> (r: bool)
    ensures
        r == window_leq(*a, *b),
{
    a.start.before(&b.start) || (a.start.same_day(&b.start) && a.end.not_after(&b.end))
}

/// Merges the windows of a list: sorted by start and end, then each window
/// that overlaps its predecessor or begins on the day after it ends is
/// joined to it.
pub fn merge_windows(windows: Vec<DateWindow>) -> (merged: Vec<DateWindow>)
    ensures
        merged@ == merge(windows@),
{
    let mut windows = windows;
    let ghost given = windows@;
    proof {
        lemma_window_order_total();
    }
    let le = |a: &DateWindow, b: &DateWindow| -> (r: bool)
        ensures
            r == window_leq(*a, *b),
        { window_not_after(a, b) };
    sort_by(&mut windows, le, Ghost(window_order()));
    proof {
        given.lemma_sort_by_ensures(window_order());
        lemma_sorted_unique(windows@, given.sort_by(window_order()), window_order());
    }
    let mut merged: Vec<DateWindow> = Vec::new();
    let mut i: usize = 0;
    while i < windows.len()
        invariant
            i <= windows.len(),
            merged@ == merge_sorted(windows@.take(i as int)),
        decreases windows.len() - i,
    {
        let w = windows[i];
        proof {
            assert(windows@.take(i + 1).drop_last() == windows@.take(i as int));
        }
        let n = merged.len();
        if n > 0 && w.start.days() <= merged[n - 1].end.days() + 1 {
            let last = merged[n - 1];
            let end = if last.end.before(&w.end) {
                w.end
            } else {
                last.end
            };
            merged.pop();
            merged.push(DateWindow { start: last.start, end });
        } else {
            merged.push(w);
        }
        i += 1;
    }
    assert(windows@.take(windows.len() as int) == windows@);
    merged
}

/// Whether some window of the list holds the date.
pub fn date_in_windows(date: Date, windows: &Vec<DateWindow>) -> (r: bool)
    ensures
        r == in_windows(date, windows@),
{
    let mut i: usize = 0;
    while i < windows.len()
        invariant
            i <= windows.len(),
            forall|k: int| 0 <= k < i ==> !(#[trigger] windows@[k]).holds(date),
        decreases windows.len() - i,
    {
        if windows[i].start.not_after(&date) && date.not_after(&windows[i].end) {
            return true;
        }
        i += 1;
    }
    false
}

/// The part of a stay from `debut` to `fin` (or without end) that lies in
/// the period, if any.
pub open spec fn clip(debut: Date, fin: Option<Date>, period_start: Date, period_end: Date)
    -> Option<DateWindow> {
    let start = if debut.day() >= period_start.day() {
        debut
    } else {
        period_start
    };
    let until = match fin {
        Some(f) => f,
        None => period_end,
    };
    let end = if until.day() <= period_end.day() {
        until
    } else {
        period_end
    };
    if start.day() <= end.day() {
        Some(DateWindow { start, end })
    } else {
        None
    }
}

/// The parts of the episodes that lie in the period, in the order of the
/// episodes.
pub open spec fn clipped_episodes(
    episodes: Seq<MandatAssembleeEpisode>,
    period_start: Date,
    period_end: Date,
) -> Seq<DateWindow>
    decreases episodes.len(),
{
    if episodes.len() == 0 {
        Seq::empty()
    } else {
        let before = clipped_episodes(episodes.drop_last(), period_start, period_end);
        match clip(episodes.last().date_debut, episodes.last().date_fin, period_start, period_end) {
            Some(w) => before.push(w),
            None => before,
        }
    }
}

/// The windows of the period in which the representative held a seat,
/// before merging: the parts of the episodes that lie in the period. Only
/// for a representative without any episode the mandate of the record
/// stands in, a missing start or end taken as that of the period.
pub open spec fn mandate_windows(dep: Depute, period_start: Date, period_end: Date) -> Seq<
    DateWindow,
> {
    if dep.mandat_assemblee_episodes@.len() > 0 {
        clipped_episodes(dep.mandat_assemblee_episodes@, period_start, period_end)
    } else {
        let debut = match dep.mandat_debut {
            Some(d) => d,
            None => period_start,
        };
        match clip(debut, dep.mandat_fin, period_start, period_end) {
            Some(w) => seq![w],
            None => Seq::empty(),
        }
    }
}

/// The effective mandate windows of a representative for a period: the
/// merge of the mandate windows. A representative whose episodes all lie
/// outside the period has none.
pub open spec fn effective_windows(dep: Depute, period_start: Date, period_end: Date) -> Seq<
    DateWindow,
> {
    merge(mandate_windows(dep, period_start, period_end))
}

pub fn clip_to_period(debut: Date, fin: Option<Date>, period_start: Date, period_end: Date) -> (r:
    Option<DateWindow>)
    ensures
        r == clip(debut, fin, period_start, period_end),
        r matches Some(w) ==> w.wf(),
{
    let start = debut.latest(period_start);
    let until = match fin {
        Some(f) => f,
        None => period_end,
    };
    let end = until.earliest(period_end);
    if start.not_after(&end) {
        Some(DateWindow { start, end })
    } else {
        None
    }
}

/// No two effective windows overlap or touch.
pub proof fn lemma_effective_windows_separated(dep: Depute, period_start: Date, period_end: Date)
    ensures
        separated(effective_windows(dep, period_start, period_end)),
{
    lemma_clipped_wf(dep.mandat_assemblee_episodes@, period_start, period_end);
    lemma_merge_separated(mandate_windows(dep, period_start, period_end));
}

proof fn lemma_clipped_wf(
    episodes: Seq<MandatAssembleeEpisode>,
    period_start: Date,
    period_end: Date,
)
    ensures
        all_wf(clipped_episodes(episodes, period_start, period_end)),
    decreases episodes.len(),
{
    if episodes.len() > 0 {
        lemma_clipped_wf(episodes.drop_last(), period_start, period_end);
    }
}

/// The effective mandate windows of a representative for a period.
pub fn effective_mandate_windows(dep: &Depute, period_start: Date, period_end: Date) -> (r: Vec<
    DateWindow,
>)
    ensures
        r@ == effective_windows(*dep, period_start, period_end),
        separated(r@),
{
    let mut windows: Vec<DateWindow> = Vec::new();
    let mut i: usize = 0;
    while i < dep.mandat_assemblee_episodes.len()
        invariant
            i <= dep.mandat_assemblee_episodes.len(),
            windows@ == clipped_episodes(
                dep.mandat_assemblee_episodes@.take(i as int),
                period_start,
                period_end,
            ),
        decreases dep.mandat_assemblee_episodes.len() - i,
    {
        let ep = dep.mandat_assemblee_episodes[i];
        proof {
            assert(dep.mandat_assemblee_episodes@.take(i + 1).drop_last()
                == dep.mandat_assemblee_episodes@.take(i as int));
        }
        match clip_to_period(ep.date_debut, ep.date_fin, period_start, period_end) {
            Some(w) => {
                windows.push(w);
            },
            None => {},
        }
        i += 1;
    }
    assert(dep.mandat_assemblee_episodes@.take(dep.mandat_assemblee_episodes.len() as int)
        == dep.mandat_assemblee_episodes@);
    if dep.mandat_assemblee_episodes.len() == 0 {
        let debut = match dep.mandat_debut {
            Some(d) => d,
            None => period_start,
        };
        match clip_to_period(debut, dep.mandat_fin, period_start, period_end) {
            Some(w) => {
                windows.push(w);
            },
            None => {},
        }
    }
    proof {
        assert(windows@ == mandate_windows(*dep, period_start, period_end));
        lemma_effective_windows_separated(*dep, period_start, period_end);
    }
    merge_windows(windows)
}

} // verus!
