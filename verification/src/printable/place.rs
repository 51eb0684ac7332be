//! Placement: which event is drawn in which day cell, and with what text.
//!
//! Events are taken in the order given. Each contributes one entry for
//! every day of its span that has a cell. A day that an earlier event of
//! the same calendar occupies too is marked as a conflict. The summary is
//! broken into as many lines as the event has days with a cell, and the
//! lines go to those days in order.

use crate::date::{
    date_of_day_number, lemma_date_of_day_number, lemma_day_number_bounds,
    lemma_day_number_in_range, lemma_day_number_order, CalendarDate,
};
use crate::events::{Event, EventView};
use crate::printable::grid::{date_key, key_of, CellGeometry, Grid};
use crate::printable::wrap::{calc_line_breaks, FontMetrics};
use std::collections::HashSet;
use vstd::prelude::*;

verus! {

/// What to draw for one event in one day cell.
#[derive(Debug, PartialEq, Eq)]
pub struct PlacementEntry {
    pub date: CalendarDate,
    /// The calendar of the event: it decides the lane.
    pub source: usize,
    /// Whether an earlier event of the same calendar occupies the day too.
    pub is_conflict: bool,
    pub line_text: String,
    /// Whether the day is the first of the event.
    pub is_first_day: bool,
    /// Whether the day is the last of the event.
    pub is_last_day: bool,
}

/// An entry as contracts see it.
pub struct PlacementEntryView {
    pub date: CalendarDate,
    pub source: usize,
    pub is_conflict: bool,
    pub line_text: Seq<char>,
    pub is_first_day: bool,
    pub is_last_day: bool,
}

impl View for PlacementEntry {
    type V = PlacementEntryView;

    open spec fn view(&self) -> PlacementEntryView {
        PlacementEntryView {
            date: self.date,
            source: self.source,
            is_conflict: self.is_conflict,
            line_text: self.line_text@,
            is_first_day: self.is_first_day,
            is_last_day: self.is_last_day,
        }
    }
}

impl DeepView for PlacementEntry {
    type V = PlacementEntryView;

    open spec fn deep_view(&self) -> PlacementEntryView {
        self@
    }
}

/// The character of a decimal digit.
pub open spec fn digit(d: int) -> char {
    (48 + d) as u8 as char
}

/// A number written in decimal digits.
pub open spec fn decimal(n: nat) -> Seq<char>
    decreases n,
{
    if n < 10 {
        seq![digit(n as int)]
    } else {
        decimal(n / 10).push(digit(n as int % 10))
    }
}

/// The day of `event` that lies `offset` days after its start.
pub open spec fn day_of(event: EventView, offset: int) -> CalendarDate {
    date_of_day_number(event.start.day_number() + offset)
}

/// How many days after the start of `event` each of its first `upto` days
/// with a cell lies, in order.
pub open spec fn visible_offsets(
    event: EventView,
    grid: Map<CalendarDate, CellGeometry>,
    upto: int,
) -> Seq<int>
    decreases upto,
{
    if upto <= 0 {
        seq![]
    } else {
        let before = visible_offsets(event, grid, upto - 1);
        if grid.contains_key(day_of(event, upto - 1)) {
            before.push(upto - 1)
        } else {
            before
        }
    }
}

/// Whether one of the first `upto` events belongs to calendar `source` and
/// occupies `date`.
pub open spec fn claimed_by(
    events: Seq<EventView>,
    upto: int,
    source: usize,
    date: CalendarDate,
) -> bool {
    exists|j: int| 0 <= j < upto && (#[trigger] events[j]).id == source && events[j].covers(date)
}

/// The text of the day with a cell that is number `index` of its event,
/// `ordinal` days into it, when the summary was broken into `lines` with
/// `max_lines` asked for: the line of that number; nothing where the
/// summary was too short; the ordinal where no line was asked for.
pub open spec fn assigned_line(
    lines: Seq<Seq<char>>,
    max_lines: int,
    index: int,
    ordinal: int,
) -> Seq<char> {
    if 0 <= index < lines.len() {
        lines[index]
    } else if index < max_lines {
        seq![]
    } else {
        decimal(ordinal as nat)
    }
}

/// The lines of the summary of an event with `count` days that have a
/// cell, and the number of lines asked for. A line width of zero or less
/// allows no lines: none are asked for.
pub open spec fn summary_lines(
    metrics: &FontMetrics,
    summary: Seq<char>,
    line_width: int,
    count: int,
) -> (Seq<Seq<char>>, int) {
    if line_width > 0 {
        (metrics.wrapped(summary, line_width, count), count)
    } else {
        (seq![], 0)
    }
}

/// The entries of event `i`.
pub open spec fn event_entries(
    events: Seq<EventView>,
    i: int,
    grid: Map<CalendarDate, CellGeometry>,
    metrics: &FontMetrics,
    line_width: int,
) -> Seq<PlacementEntryView> {
    let event = events[i];
    let offsets = visible_offsets(event, grid, event.num_days);
    let (lines, max_lines) = summary_lines(
        metrics,
        event.summary,
        line_width,
        offsets.len() as int,
    );
    Seq::new(
        offsets.len(),
        |n: int|
            PlacementEntryView {
                date: day_of(event, offsets[n]),
                source: event.id,
                is_conflict: claimed_by(events, i, event.id, day_of(event, offsets[n])),
                line_text: assigned_line(lines, max_lines, n, offsets[n] + 1),
                is_first_day: offsets[n] == 0,
                is_last_day: offsets[n] == event.num_days - 1,
            },
    )
}

/// The entries of the first `upto` events, event after event.
pub open spec fn placement(
    events: Seq<EventView>,
    grid: Map<CalendarDate, CellGeometry>,
    metrics: &FontMetrics,
    line_width: int,
    upto: int,
) -> Seq<PlacementEntryView>
    decreases upto,
{
    if upto <= 0 {
        seq![]
    } else {
        placement(events, grid, metrics, line_width, upto - 1) + event_entries(
            events,
            upto - 1,
            grid,
            metrics,
            line_width,
        )
    }
}

/// The offsets of the days with a cell lie within the span, rise, lead to
/// days with a cell, and miss no such day.
pub proof fn lemma_visible_offsets(
    event: EventView,
    grid: Map<CalendarDate, CellGeometry>,
    upto: int,
)
    ensures
        forall|n: int|
            0 <= n < visible_offsets(event, grid, upto).len() ==> {
                &&& 0 <= (#[trigger] visible_offsets(event, grid, upto)[n]) < upto
                &&& grid.contains_key(day_of(event, visible_offsets(event, grid, upto)[n]))
            },
        forall|m: int, n: int|
            0 <= m < n < visible_offsets(event, grid, upto).len() ==> visible_offsets(
                event,
                grid,
                upto,
            )[m] < visible_offsets(event, grid, upto)[n],
        forall|k: int|
            0 <= k < upto && grid.contains_key(#[trigger] day_of(event, k)) ==> visible_offsets(
                event,
                grid,
                upto,
            ).contains(k),
    decreases upto,
{
    if upto > 0 {
        lemma_visible_offsets(event, grid, upto - 1);
        let before = visible_offsets(event, grid, upto - 1);
        let now = visible_offsets(event, grid, upto);
        assert forall|k: int| 0 <= k < upto && grid.contains_key(
            #[trigger] day_of(event, k),
        ) implies now.contains(k) by {
            if k < upto - 1 {
                let n = choose|n: int| 0 <= n < before.len() && before[n] == k;
                assert(now[n] == k);
            } else {
                assert(now[now.len() - 1] == k);
            }
        }
    }
}

/// An event has exactly one entry for each of its days that has a cell: a
/// day that the event occupies and that has a cell is the date of one
/// entry, and no two entries of the event have the same date.
pub proof fn lemma_entry_per_day(
    events: Seq<EventView>,
    i: int,
    grid: Map<CalendarDate, CellGeometry>,
    metrics: &FontMetrics,
    line_width: int,
    date: CalendarDate,
)
    requires
        0 <= i < events.len(),
        events[i].wf(),
        date.wf(),
    ensures
        ({
            let entries = event_entries(events, i, grid, metrics, line_width);
            &&& events[i].covers(date) && grid.contains_key(date) ==> exists|n: int|
                0 <= n < entries.len() && (#[trigger] entries[n]).date == date
            &&& forall|m: int, n: int|
                0 <= m < n < entries.len() ==> (#[trigger] entries[m]).date != (
                #[trigger] entries[n]).date
            &&& forall|n: int|
                0 <= n < entries.len() ==> events[i].covers((#[trigger] entries[n]).date)
                    && grid.contains_key(entries[n].date)
        }),
{
    let event = events[i];
    let offsets = visible_offsets(event, grid, event.num_days);
    let entries = event_entries(events, i, grid, metrics, line_width);
    lemma_visible_offsets(event, grid, event.num_days);
    lemma_day_number_order(event.start, event.end);
    lemma_day_number_bounds(event.end);
    assert forall|k: int| 0 <= k < event.num_days implies {
        &&& (#[trigger] day_of(event, k)).wf()
        &&& day_of(event, k).day_number() == event.start.day_number() + k
        &&& event.covers(day_of(event, k))
    } by {
        lemma_day_exists(event, k);
    }
    if event.covers(date) && grid.contains_key(date) {
        lemma_day_number_order(event.start, date);
        lemma_day_number_order(date, event.end);
        let k = date.day_number() - event.start.day_number();
        lemma_date_of_day_number(date);
        assert(day_of(event, k) == date);
        let n = choose|n: int| 0 <= n < offsets.len() && offsets[n] == k;
        assert(entries[n].date == date);
    }
    assert forall|m: int, n: int| 0 <= m < n < entries.len() implies (#[trigger] entries[m]).date
        != (#[trigger] entries[n]).date by {
        assert(offsets[m] < offsets[n]);
        assert(day_of(event, offsets[m]).day_number() != day_of(event, offsets[n]).day_number());
    }
    assert forall|n: int| 0 <= n < entries.len() implies events[i].covers(
        (#[trigger] entries[n]).date,
    ) && grid.contains_key(entries[n].date) by {
        assert(0 <= offsets[n] < event.num_days);
    }
}

/// The day at an offset within the span of an event exists, lies that many
/// days after the start, and is occupied by the event.
pub proof fn lemma_day_exists(event: EventView, offset: int)
    requires
        event.wf(),
        0 <= offset < event.num_days,
    ensures
        day_of(event, offset).wf(),
        day_of(event, offset).day_number() == event.start.day_number() + offset,
        event.covers(day_of(event, offset)),
{
    let n = event.start.day_number() + offset;
    lemma_day_number_order(event.start, event.end);
    lemma_day_number_bounds(event.end);
    lemma_day_number_in_range(event.start, n);
    let d = day_of(event, offset);
    lemma_day_number_order(event.start, d);
    lemma_day_number_order(d, event.end);
}

/// Of two events of one calendar that occupy the same day with a cell, the
/// later one is marked as a conflict on that day. The earlier one is
/// marked exactly if an event before it, of the same calendar, occupies
/// the day as well: the first event to occupy a day is never marked.
pub proof fn lemma_conflict_order(
    events: Seq<EventView>,
    grid: Map<CalendarDate, CellGeometry>,
    metrics: &FontMetrics,
    line_width: int,
    i: int,
    j: int,
    date: CalendarDate,
)
    requires
        0 <= i < j < events.len(),
        events[i].wf(),
        events[j].wf(),
        events[i].id == events[j].id,
        events[i].covers(date),
        events[j].covers(date),
        date.wf(),
        grid.contains_key(date),
    ensures
        ({
            let earlier = event_entries(events, i, grid, metrics, line_width);
            let later = event_entries(events, j, grid, metrics, line_width);
            &&& exists|n: int| 0 <= n < later.len() && (#[trigger] later[n]).date == date
            &&& exists|n: int| 0 <= n < earlier.len() && (#[trigger] earlier[n]).date == date
            &&& forall|n: int|
                0 <= n < later.len() && (#[trigger] later[n]).date == date ==> later[n].is_conflict
            &&& forall|n: int|
                0 <= n < earlier.len() && (#[trigger] earlier[n]).date == date ==> (
                earlier[n].is_conflict <==> claimed_by(events, i, events[i].id, date))
        }),
{
    lemma_entry_per_day(events, i, grid, metrics, line_width, date);
    lemma_entry_per_day(events, j, grid, metrics, line_width, date);
    assert(claimed_by(events, j, events[j].id, date)) by {
        assert(0 <= i < j && events[i].id == events[j].id && events[i].covers(date));
    }
}

/// Conflicts stay within a calendar: a day of an event is marked exactly
/// if an earlier event of the same calendar occupies it, whatever the
/// events of other calendars do.
pub proof fn lemma_conflict_within_source(
    events: Seq<EventView>,
    grid: Map<CalendarDate, CellGeometry>,
    metrics: &FontMetrics,
    line_width: int,
    i: int,
)
    requires
        0 <= i < events.len(),
    ensures
        ({
            let entries = event_entries(events, i, grid, metrics, line_width);
            forall|n: int|
                0 <= n < entries.len() ==> ((#[trigger] entries[n]).is_conflict <==> exists|j: int|
                    0 <= j < i && (#[trigger] events[j]).id == events[i].id && events[j].covers(
                        entries[n].date,
                    )) && entries[n].source == events[i].id
        }),
{
}

/// Placement is a function of its input: two results for the same events,
/// grid, metrics and line width are the same, entry by entry.
pub proof fn lemma_placement_deterministic(
    events: Seq<EventView>,
    grid: Map<CalendarDate, CellGeometry>,
    metrics: &FontMetrics,
    line_width: int,
    first: Seq<PlacementEntryView>,
    second: Seq<PlacementEntryView>,
)
    requires
        first == placement(events, grid, metrics, line_width, events.len() as int),
        second == placement(events, grid, metrics, line_width, events.len() as int),
    ensures
        first == second,
{
}

/// Without cells nothing is placed.
pub proof fn lemma_placement_empty_grid(
    events: Seq<EventView>,
    metrics: &FontMetrics,
    line_width: int,
    upto: int,
)
    requires
        upto <= events.len(),
    ensures
        placement(events, Map::empty(), metrics, line_width, upto).len() == 0,
    decreases upto,
{
    if upto > 0 {
        lemma_placement_empty_grid(events, metrics, line_width, upto - 1);
        lemma_visible_offsets(events[upto - 1], Map::empty(), events[upto - 1].num_days);
        let offsets = visible_offsets(events[upto - 1], Map::empty(), events[upto - 1].num_days);
        if offsets.len() > 0 {
            assert(Map::<CalendarDate, CellGeometry>::empty().contains_key(
                day_of(events[upto - 1], offsets[0]),
            ));
        }
    }
}

/// The integer that a day of a calendar is filed under.
pub open spec fn claim_key(source: usize, date: CalendarDate) -> u128 {
    (source * 0x1_0000_0000 + date_key(date)) as u128
}

/// `std::fmt::Display` for `u64`, through `format!`: the number in decimal
/// digits, without sign or leading zeros.
#[verifier::external_body]
fn decimal_string(n: u64) -> (r: String)
    ensures
        r@ == decimal(n as nat),
{
    format!("{}", n)
}

/// The text for one day of an event: see [`assigned_line`].
pub fn assign_line(lines: &Vec<String>, max_lines: usize, index: usize, ordinal: u64) -> (r:
    String)
    ensures
        r@ == assigned_line(lines.deep_view(), max_lines as int, index as int, ordinal as int),
{
    if index < lines.len() {
        lines[index].clone()
    } else if index < max_lines {
        String::new()
    } else {
        decimal_string(ordinal)
    }
}

/// A day of an event that has a cell.
struct VisibleDay {
    offset: u64,
    date: CalendarDate,
    conflict: bool,
}

/// Places the events into the cells of `pos_map`.
///
/// The result is [`placement`] of all events: for each event in turn, one
/// entry for each of its days that has a cell, in the order of the days.
/// The entry says whether the day is the first or the last of the event
/// and whether an earlier event of the same calendar occupies it too. Its
/// text is the line of the summary that falls to the day. Where
/// `line_width` is zero or less the summary cannot be broken into lines,
/// and each day shows its number within the event instead.
pub fn write_events(
    events: &Vec<Event>,
    pos_map: &Grid,
    metrics: &FontMetrics,
    line_width: i64,
) -> (r: Vec<PlacementEntry>)
    requires
        forall|i: int| 0 <= i < events.len() ==> (#[trigger] events[i]).wf(),
    ensures
        r.deep_view() == placement(
            events.deep_view(),
            pos_map@,
            metrics,
            line_width as int,
            events.len() as int,
        ),
{
    broadcast use vstd::std_specs::hash::group_hash_axioms;

    let ghost all = events.deep_view();
    let ghost grid = pos_map@;
    let mut entries: Vec<PlacementEntry> = Vec::new();
    let mut claims: HashSet<u128> = HashSet::new();
    let mut i: usize = 0;
    while i < events.len()
        invariant
            i <= events.len(),
            all == events.deep_view(),
            grid == pos_map@,
            forall|j: int| 0 <= j < events.len() ==> (#[trigger] events[j]).wf(),
            entries.deep_view() == placement(all, grid, metrics, line_width as int, i as int),
            forall|s: usize, d: CalendarDate|
                d.wf() ==> (claims@.contains(#[trigger] claim_key(s, d)) <==> claimed_by(
                    all,
                    i as int,
                    s,
                    d,
                )),
        decreases events.len() - i,
    {
        let event = &events[i];
        let ghost ev = all[i as int];
        assert(ev == event@);
        assert(event.wf());
        let id = event.id;
        proof {
            lemma_day_number_order(event.start, event.end);
            lemma_day_number_bounds(event.end);
        }
        let span: u64 = event.num_days as u64;
        let mut visible: Vec<VisibleDay> = Vec::new();
        let mut k: u64 = 0;
        while k < span
            invariant
                k <= span,
                span == ev.num_days,
                ev.wf(),
                ev == all[i as int],
                id == ev.id,
                ev == event@,
                0 <= i < all.len(),
                grid == pos_map@,
                ev.end.day_number() <= crate::date::last_day_number(),
                visible.len() == visible_offsets(ev, grid, k as int).len(),
                forall|n: int|
                    0 <= n < visible.len() ==> {
                        &&& (#[trigger] visible[n]).offset == visible_offsets(ev, grid, k as int)[n]
                        &&& visible[n].offset < k
                        &&& visible[n].date == day_of(ev, visible[n].offset as int)
                        &&& visible[n].conflict == claimed_by(all, i as int, id, visible[n].date)
                    },
                forall|s: usize, d: CalendarDate|
                    d.wf() ==> (claims@.contains(#[trigger] claim_key(s, d)) <==> (claimed_by(
                        all,
                        i as int,
                        s,
                        d,
                    ) || (s == id && ev.start.day_number() <= d.day_number()
                        < ev.start.day_number() + k))),
            decreases span - k,
        {
            // The day lies within the span, so it exists.
            let date = match event.start.plus_days(k) {
                Some(date) => date,
                None => {
                    assert(false);
                    event.start
                },
            };
            proof {
                lemma_day_number_order(ev.start, date);
            }
            let key = claim_key_of(id, &date);
            let ghost claims_before = claims@;
            let fresh = claims.insert(key);
            proof {
                assert forall|s: usize, d: CalendarDate| d.wf() implies (claims@.contains(
                    #[trigger] claim_key(s, d),
                ) <==> (claimed_by(all, i as int, s, d) || (s == id && ev.start.day_number()
                    <= d.day_number() < ev.start.day_number() + (k + 1)))) by {
                    lemma_day_number_order(d, date);
                    lemma_day_number_order(ev.start, d);
                    lemma_claim_key_injective(s, d, id, date);
                }
                assert(!fresh == claimed_by(all, i as int, id, date)) by {
                    assert(claims_before.contains(claim_key(id, date)) == !fresh);
                }
            }
            match pos_map.get(&date) {
                Some(_) => {
                    visible.push(VisibleDay { offset: k, date, conflict: !fresh });
                },
                None => {},
            }
            k = k + 1;
        }
        let count = visible.len();
        let (lines, max_lines) = match calc_line_breaks(
            event.summary.as_str(),
            line_width,
            count,
            metrics,
        ) {
            Ok(lines) => (lines, count),
            Err(_) => (Vec::new(), 0),
        };
        assert((lines.deep_view(), max_lines as int) == summary_lines(
            metrics,
            ev.summary,
            line_width as int,
            count as int,
        ));
        let ghost done = entries.deep_view();
        let ghost target = event_entries(all, i as int, grid, metrics, line_width as int);
        let mut n: usize = 0;
        while n < count
            invariant
                n <= count,
                count == visible.len(),
                count == target.len(),
                ev == all[i as int],
                ev == event@,
                id == ev.id,
                span == ev.num_days,
                0 <= i < all.len(),
                target == event_entries(all, i as int, grid, metrics, line_width as int),
                (lines.deep_view(), max_lines as int) == summary_lines(
                    metrics,
                    ev.summary,
                    line_width as int,
                    count as int,
                ),
                count == visible_offsets(ev, grid, span as int).len(),
                forall|m: int|
                    0 <= m < visible.len() ==> {
                        &&& (#[trigger] visible[m]).offset == visible_offsets(
                            ev,
                            grid,
                            span as int,
                        )[m]
                        &&& visible[m].offset < span
                        &&& visible[m].date == day_of(ev, visible[m].offset as int)
                        &&& visible[m].conflict == claimed_by(all, i as int, id, visible[m].date)
                    },
                entries.deep_view() == done + target.take(n as int),
            decreases count - n,
        {
            let day = &visible[n];
            let text = assign_line(&lines, max_lines, n, day.offset + 1);
            let entry = PlacementEntry {
                date: day.date,
                source: id,
                is_conflict: day.conflict,
                line_text: text,
                is_first_day: day.offset == 0,
                is_last_day: day.offset == span - 1,
            };
            assert(entry@ == target[n as int]);
            let ghost before = entries.deep_view();
            entries.push(entry);
            assert(entries.deep_view() == before.push(entry@));
            assert(target.take(n + 1) == target.take(n as int).push(target[n as int]));
            n = n + 1;
        }
        proof {
            assert(target.take(count as int) == target);
            assert forall|s: usize, d: CalendarDate| d.wf() implies (claims@.contains(
                #[trigger] claim_key(s, d),
            ) <==> claimed_by(all, i + 1, s, d)) by {
                lemma_day_number_order(d, ev.end);
                lemma_day_number_order(ev.start, d);
                if claimed_by(all, i as int, s, d) {
                    let j = choose|j: int|
                        0 <= j < i && (#[trigger] all[j]).id == s && all[j].covers(d);
                    assert(0 <= j < i + 1 && all[j].id == s && all[j].covers(d));
                }
                if s == id && ev.covers(d) {
                    assert(0 <= i < i + 1 && all[i as int].id == s && all[i as int].covers(d));
                }
            }
        }
        i = i + 1;
    }
    entries
}

/// The key of a day of a calendar.
fn claim_key_of(source: usize, date: &CalendarDate) -> (key: u128)
    requires
        date.wf(),
    ensures
        key == claim_key(source, *date),
{
    source as u128 * 0x1_0000_0000 + key_of(date) as u128
}

/// Different days, and days of different calendars, are filed under
/// different keys.
proof fn lemma_claim_key_injective(s1: usize, d1: CalendarDate, s2: usize, d2: CalendarDate)
    requires
        d1.wf(),
        d2.wf(),
    ensures
        claim_key(s1, d1) == claim_key(s2, d2) <==> s1 == s2 && d1 == d2,
{
    if claim_key(s1, d1) == claim_key(s2, d2) {
        assert(date_key(d1) < 0x1_0000_0000 && date_key(d2) < 0x1_0000_0000);
        assert(s1 == s2);
        crate::printable::grid::lemma_date_key_injective(d1, d2);
    }
}

} // verus!
