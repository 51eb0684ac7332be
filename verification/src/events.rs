//! Events: the records that calendars hold, and what placement works on.
//!
//! A record becomes an event when it has a start, an end and a summary and
//! is not marked as cancelled. An event occupies every day from its start
//! to its end, both included.

use crate::date::{compact_date, lemma_day_number_order, CalendarDate};
use crate::printable::wrap::chars_of;
use vstd::prelude::*;
use vstd::string::*;

verus! {

/// One occurrence of an event.
#[derive(Debug, PartialEq, Eq)]
pub struct Event {
    /// The calendar that the event comes from, by its position in the input.
    pub id: usize,
    /// First day of the event.
    pub start: CalendarDate,
    /// Last day of the event.
    pub end: CalendarDate,
    /// Days that the event occupies, first and last included.
    pub num_days: i64,
    pub summary: String,
}

/// An event as contracts see it.
pub struct EventView {
    pub id: usize,
    pub start: CalendarDate,
    pub end: CalendarDate,
    pub num_days: int,
    pub summary: Seq<char>,
}

/// A record as it comes out of a calendar, fields missing where the
/// calendar had none that could be read.
#[derive(Debug, PartialEq, Eq)]
pub struct RawEvent {
    pub start: Option<CalendarDate>,
    pub end: Option<CalendarDate>,
    pub summary: Option<String>,
    pub location: Option<String>,
}

/// A record as contracts see it.
pub struct RawEventView {
    pub start: Option<CalendarDate>,
    pub end: Option<CalendarDate>,
    pub summary: Option<Seq<char>>,
    pub location: Option<Seq<char>>,
}

/// A record whose end lies before its start.
#[derive(Clone, Copy, Debug, PartialEq, Eq, Structural)]
pub struct InvalidRangeError {
    /// Position of the record among those handed in.
    pub index: usize,
}

/// What becomes of one record.
pub enum Normalized {
    /// Left out: a field is missing or the event is cancelled.
    Dropped,
    /// Refused: the end lies before the start.
    Rejected,
    /// Taken over as this event.
    Kept(EventView),
}

/// The number of days from `start` to `end`, both included.
pub open spec fn span_days(start: CalendarDate, end: CalendarDate) -> int {
    end.day_number() - start.day_number() + 1
}

/// What a summary begins with when the event is cancelled.
pub open spec fn cancellation_prefix() -> Seq<char> {
    seq!['C', 'a', 'n', 'c', 'e', 'l', 'e', 'd', ':', ' ']
}

/// What stands between a summary and the location added to it.
pub open spec fn location_link() -> Seq<char> {
    seq![' ', 'a', 't', ' ']
}

/// The summary of an event: that of the record, followed by the location
/// where the record names one.
pub open spec fn full_summary(summary: Seq<char>, location: Option<Seq<char>>) -> Seq<char> {
    match location {
        Some(place) => if place.len() > 0 {
            summary + location_link() + place
        } else {
            summary
        },
        None => summary,
    }
}

/// Whether a summary marks its event as cancelled.
pub open spec fn is_cancelled(summary: Seq<char>) -> bool {
    cancellation_prefix().is_prefix_of(summary)
}

/// What becomes of `raw` as a record of calendar `id`.
pub open spec fn normalized(raw: RawEventView, id: usize) -> Normalized {
    match (raw.start, raw.end, raw.summary) {
        (Some(start), Some(end), Some(summary)) => {
            let text = full_summary(summary, raw.location);
            if is_cancelled(text) {
                Normalized::Dropped
            } else if end.lt(start) {
                Normalized::Rejected
            } else {
                Normalized::Kept(
                    EventView { id, start, end, num_days: span_days(start, end), summary: text },
                )
            }
        },
        _ => Normalized::Dropped,
    }
}

/// The events that the records give, in the order of the records.
pub open spec fn kept(raws: Seq<RawEventView>, id: usize) -> Seq<EventView>
    decreases raws.len(),
{
    if raws.len() == 0 {
        seq![]
    } else {
        let before = kept(raws.drop_last(), id);
        match normalized(raws.last(), id) {
            Normalized::Kept(event) => before.push(event),
            _ => before,
        }
    }
}

/// The position of the first record that is refused, if one is.
pub open spec fn first_rejected(raws: Seq<RawEventView>, id: usize) -> Option<int>
    decreases raws.len(),
{
    if raws.len() == 0 {
        None
    } else {
        match first_rejected(raws.drop_last(), id) {
            Some(i) => Some(i),
            None => if normalized(raws.last(), id) is Rejected {
                Some(raws.len() - 1)
            } else {
                None
            },
        }
    }
}

impl View for Event {
    type V = EventView;

    open spec fn view(&self) -> EventView {
        EventView {
            id: self.id,
            start: self.start,
            end: self.end,
            num_days: self.num_days as int,
            summary: self.summary@,
        }
    }
}

impl DeepView for Event {
    type V = EventView;

    open spec fn deep_view(&self) -> EventView {
        self@
    }
}

impl DeepView for RawEvent {
    type V = RawEventView;

    open spec fn deep_view(&self) -> RawEventView {
        RawEventView {
            start: self.start,
            end: self.end,
            summary: self.summary.deep_view(),
            location: self.location.deep_view(),
        }
    }
}

impl EventView {
    /// Start and end exist, the end is not before the start, and the
    /// number of days is that of the span.
    pub open spec fn wf(self) -> bool {
        &&& self.start.wf()
        &&& self.end.wf()
        &&& self.start.le(self.end)
        &&& self.num_days == span_days(self.start, self.end)
    }

    /// Whether the event occupies `date`.
    pub open spec fn covers(self, date: CalendarDate) -> bool {
        self.start.le(date) && date.le(self.end)
    }
}

impl RawEventView {
    /// The dates that the record has exist.
    pub open spec fn wf(self) -> bool {
        &&& self.start matches Some(d) ==> d.wf()
        &&& self.end matches Some(d) ==> d.wf()
    }
}

impl Event {
    /// See [`EventView::wf`].
    pub open spec fn wf(&self) -> bool {
        self@.wf()
    }

    /// The event of calendar `id` from `start` to `end`, unless `end` is
    /// the earlier day.
    pub fn new(id: usize, start: CalendarDate, end: CalendarDate, summary: String) -> (r: Option<
        Event,
    >)
        requires
            start.wf(),
            end.wf(),
        ensures
            match r {
                Some(event) => start.le(end) && event.wf() && event@ == (EventView {
                    id,
                    start,
                    end,
                    num_days: span_days(start, end),
                    summary: summary@,
                }),
                None => end.lt(start),
            },
    {
        if !start.is_le(&end) {
            return None;
        }
        let days = start.days_until(&end);
        proof {
            crate::date::lemma_day_number_bounds(start);
            crate::date::lemma_day_number_bounds(end);
        }
        Some(Event { id, start, end, num_days: days + 1, summary })
    }
}

/// An event that ends no earlier than it starts occupies at least one day,
/// and exactly one if it ends on the day it starts.
pub proof fn lemma_span_days(start: CalendarDate, end: CalendarDate)
    requires
        start.wf(),
        end.wf(),
        start.le(end),
    ensures
        span_days(start, end) >= 1,
        start == end ==> span_days(start, end) == 1,
{
    lemma_day_number_order(start, end);
}

/// Once a record is refused, the records after it do not change which one
/// is the first.
pub proof fn lemma_first_rejected_prefix(raws: Seq<RawEventView>, id: usize, n: int)
    requires
        0 <= n <= raws.len(),
        first_rejected(raws.take(n), id) is Some,
    ensures
        first_rejected(raws, id) == first_rejected(raws.take(n), id),
    decreases raws.len() - n,
{
    if n < raws.len() {
        assert(raws.take(n + 1).drop_last() == raws.take(n));
        lemma_first_rejected_prefix(raws, id, n + 1);
    } else {
        assert(raws.take(n) == raws);
    }
}

/// The first record refused is one of the records, and it is refused.
pub proof fn lemma_first_rejected(raws: Seq<RawEventView>, id: usize)
    ensures
        first_rejected(raws, id) matches Some(k) ==> 0 <= k < raws.len() && normalized(
            raws[k],
            id,
        ) is Rejected,
    decreases raws.len(),
{
    if raws.len() > 0 {
        lemma_first_rejected(raws.drop_last(), id);
    }
}

/// A record that gives no event can be taken away without a change to the
/// events.
pub proof fn lemma_kept_without(raws: Seq<RawEventView>, id: usize, i: int)
    requires
        0 <= i < raws.len(),
        !(normalized(raws[i], id) is Kept),
    ensures
        kept(raws, id) == kept(raws.remove(i), id),
    decreases raws.len(),
{
    if i == raws.len() - 1 {
        assert(raws.remove(i) == raws.drop_last());
    } else {
        assert(raws.remove(i).drop_last() == raws.drop_last().remove(i));
        assert(raws.remove(i).last() == raws.last());
        lemma_kept_without(raws.drop_last(), id, i);
    }
}

/// A record whose summary is the cancellation prefix followed by anything
/// is left out, whatever its dates and its location: it gives no event, the
/// events are those of the other records, and it is never the record that
/// is refused.
pub proof fn lemma_cancelled_excluded(
    raws: Seq<RawEventView>,
    id: usize,
    i: int,
    suffix: Seq<char>,
)
    requires
        0 <= i < raws.len(),
        raws[i].summary == Some(cancellation_prefix() + suffix),
    ensures
        normalized(raws[i], id) is Dropped,
        kept(raws, id) == kept(raws.remove(i), id),
        first_rejected(raws, id) != Some(i),
{
    let summary = cancellation_prefix() + suffix;
    let text = full_summary(summary, raws[i].location);
    assert(text.subrange(0, cancellation_prefix().len() as int) == cancellation_prefix());
    assert(is_cancelled(text));
    lemma_kept_without(raws, id, i);
    lemma_first_rejected(raws, id);
}

/// Every event that the records give belongs to calendar `id` and is not
/// cancelled; where the dates of the records exist, its span is in order.
pub proof fn lemma_kept_events(raws: Seq<RawEventView>, id: usize)
    ensures
        forall|j: int|
            0 <= j < kept(raws, id).len() ==> {
                &&& (#[trigger] kept(raws, id)[j]).id == id
                &&& !is_cancelled(kept(raws, id)[j].summary)
            },
        (forall|i: int| 0 <= i < raws.len() ==> (#[trigger] raws[i]).wf()) ==> forall|j: int|
            0 <= j < kept(raws, id).len() ==> (#[trigger] kept(raws, id)[j]).wf(),
    decreases raws.len(),
{
    if raws.len() > 0 {
        lemma_kept_events(raws.drop_last(), id);
        let before = kept(raws.drop_last(), id);
        let all = kept(raws, id);
        assert forall|j: int| 0 <= j < all.len() implies (#[trigger] all[j]).id == id
            && !is_cancelled(all[j].summary) by {
            if j < before.len() {
                assert(all[j] == before[j]);
            }
        }
        if forall|i: int| 0 <= i < raws.len() ==> (#[trigger] raws[i]).wf() {
            assert(raws.last().wf());
            assert forall|i: int| 0 <= i < raws.drop_last().len() implies (
            #[trigger] raws.drop_last()[i]).wf() by {
                assert(raws.drop_last()[i] == raws[i]);
            }
            assert forall|j: int| 0 <= j < all.len() implies (#[trigger] all[j]).wf() by {
                if j < before.len() {
                    assert(all[j] == before[j]);
                }
            }
        }
    }
}

/// Whether `text` begins with `prefix`.
pub fn starts_with(text: &Vec<char>, prefix: &Vec<char>) -> (r: bool)
    ensures
        r == prefix@.is_prefix_of(text@),
{
    if prefix.len() > text.len() {
        return false;
    }
    let mut i: usize = 0;
    while i < prefix.len()
        invariant
            i <= prefix.len() <= text.len(),
            forall|j: int| 0 <= j < i ==> prefix[j] == text[j],
        decreases prefix.len() - i,
    {
        if prefix[i] != text[i] {
            assert(prefix@[i as int] != text@.subrange(0, prefix.len() as int)[i as int]);
            return false;
        }
        i = i + 1;
    }
    assert(prefix@ == text@.subrange(0, prefix.len() as int));
    true
}

/// Whether a summary begins with the mark of a cancelled event.
pub fn summary_is_cancelled(summary: &str) -> (r: bool)
    ensures
        r == is_cancelled(summary@),
{
    let prefix = chars_of("Canceled: ");
    proof {
        reveal_strlit("Canceled: ");
        assert(prefix@ == cancellation_prefix());
    }
    let text = chars_of(summary);
    starts_with(&text, &prefix)
}

/// The summary of a record with the location, if it names one, added.
pub fn summary_with_location(summary: &String, location: &Option<String>) -> (r: String)
    ensures
        r@ == full_summary(summary@, location.deep_view()),
{
    let mut text = summary.clone();
    match location {
        Some(place) => {
            if !place.as_str().is_empty() {
                proof {
                    reveal_strlit(" at ");
                    assert(" at "@ == location_link());
                }
                text.append(" at ");
                text.append(place.as_str());
            }
        },
        None => {},
    }
    text
}

/// Turns the records of calendar `id` into events.
///
/// A record without start, end or summary is left out, and so is one whose
/// summary, with the location added, begins with `Canceled: `. Of the
/// others, one that ends before it starts makes the whole call fail, with
/// the position of the first such record. The events come in the order of
/// their records.
pub fn normalize(raw_events: &Vec<RawEvent>, id: usize) -> (r: Result<
    Vec<Event>,
    InvalidRangeError,
>)
    requires
        forall|i: int| 0 <= i < raw_events.len() ==> (#[trigger] raw_events[i]).deep_view().wf(),
    ensures
        match r {
            Ok(events) => first_rejected(raw_events.deep_view(), id) is None
                && events.deep_view() == kept(raw_events.deep_view(), id),
            Err(e) => first_rejected(raw_events.deep_view(), id) == Some(e.index as int),
        },
        r matches Ok(events) ==> forall|i: int| 0 <= i < events.len() ==> (#[trigger] events[i]).wf(),
{
    let ghost raws = raw_events.deep_view();
    let mut events: Vec<Event> = Vec::new();
    let mut i: usize = 0;
    assert(raws.take(0) == Seq::<RawEventView>::empty());
    while i < raw_events.len()
        invariant
            i <= raw_events.len(),
            raws == raw_events.deep_view(),
            forall|j: int|
                0 <= j < raw_events.len() ==> (#[trigger] raw_events[j]).deep_view().wf(),
            first_rejected(raws.take(i as int), id) is None,
            events.deep_view() == kept(raws.take(i as int), id),
            forall|j: int| 0 <= j < events.len() ==> (#[trigger] events[j]).wf(),
        decreases raw_events.len() - i,
    {
        let raw = &raw_events[i];
        proof {
            assert(raws.take(i + 1).drop_last() == raws.take(i as int));
            assert(raws.take(i + 1).last() == raw.deep_view());
            assert(raw_events[i as int].deep_view().wf());
        }
        let ghost before = events.deep_view();
        match (&raw.start, &raw.end, &raw.summary) {
            (Some(start), Some(end), Some(summary)) => {
                let text = summary_with_location(summary, &raw.location);
                if !summary_is_cancelled(text.as_str()) {
                    match Event::new(id, *start, *end, text) {
                        Some(event) => {
                            events.push(event);
                            assert(events.deep_view() == before.push(event@));
                        },
                        None => {
                            proof {
                                lemma_first_rejected_prefix(raws, id, i + 1);
                            }
                            return Err(InvalidRangeError { index: i });
                        },
                    }
                }
            },
            _ => {},
        }
        i = i + 1;
    }
    assert(raws.take(i as int) == raws);
    Ok(events)
}

/// A property of a calendar component: its name and its value.
#[derive(Debug, PartialEq, Eq)]
pub struct RawProperty {
    pub name: String,
    pub value: String,
}

impl DeepView for RawProperty {
    type V = (Seq<char>, Seq<char>);

    open spec fn deep_view(&self) -> (Seq<char>, Seq<char>) {
        (self.name@, self.value@)
    }
}

/// Why a calendar gives no events.
#[derive(Clone, Copy, Debug, PartialEq, Eq, Structural)]
pub enum SourceError {
    /// The text is not a calendar.
    Unreadable,
    /// A record ends before it starts.
    InvalidRange(InvalidRangeError),
}

/// What `icalendar::parser::unfold` makes of a text: the text with its
/// folded lines joined.
pub uninterp spec fn unfolded(data: Seq<char>) -> Seq<char>;

/// What `icalendar::parser::read_calendar_simple` reads in a text: for each
/// component at the top, for each component directly inside it, the names
/// and values of its properties; or nothing where the text does not parse.
pub uninterp spec fn parsed_components(data: Seq<char>) -> Option<
    Seq<Seq<Seq<(Seq<char>, Seq<char>)>>>,
>;

/// `icalendar::parser::unfold`: the result is a function of the text.
#[verifier::external_body]
fn unfold(data: &str) -> (r: String)
    ensures
        r@ == unfolded(data@),
{
    icalendar::parser::unfold(data)
}

/// `icalendar::parser::read_calendar_simple`: the result is a function of
/// the text. Of what is parsed, the properties of the components one level
/// below the top are handed on, in order.
#[verifier::external_body]
fn read_components(data: &str) -> (r: Option<Vec<Vec<Vec<RawProperty>>>>)
    ensures
        r.deep_view() == parsed_components(data@),
{
    let roots = icalendar::parser::read_calendar_simple(data).ok()?;
    let own = |p: &icalendar::parser::Property<'_>| {
        RawProperty { name: p.name.to_string(), value: p.val.to_string() }
    };
    Some(
        roots.iter().map(
            |root| root.components.iter().map(|c| c.properties.iter().map(own).collect()).collect(),
        ).collect(),
    )
}

/// The value of the last property called `name`.
pub open spec fn property_value(props: Seq<(Seq<char>, Seq<char>)>, name: Seq<char>) -> Option<
    Seq<char>,
>
    decreases props.len(),
{
    if props.len() == 0 {
        None
    } else if props.last().0 == name {
        Some(props.last().1)
    } else {
        property_value(props.drop_last(), name)
    }
}

/// The date that a property value begins with.
pub open spec fn date_value(value: Option<Seq<char>>) -> Option<CalendarDate> {
    match value {
        Some(token) => compact_date(token),
        None => None,
    }
}

/// The record that the properties of a component make.
pub open spec fn record_of(props: Seq<(Seq<char>, Seq<char>)>) -> RawEventView {
    RawEventView {
        start: date_value(property_value(props, "DTSTART"@)),
        end: date_value(property_value(props, "DTEND"@)),
        summary: property_value(props, "SUMMARY"@),
        location: property_value(props, "LOCATION"@),
    }
}

/// The records of the components inside one component.
pub open spec fn component_records(children: Seq<Seq<(Seq<char>, Seq<char>)>>) -> Seq<
    RawEventView,
> {
    Seq::new(children.len(), |i: int| record_of(children[i]))
}

/// The records of a calendar: those of its first component at the top, then
/// those of the next, and so on.
pub open spec fn calendar_records(roots: Seq<Seq<Seq<(Seq<char>, Seq<char>)>>>) -> Seq<
    RawEventView,
>
    decreases roots.len(),
{
    if roots.len() == 0 {
        seq![]
    } else {
        calendar_records(roots.drop_last()) + component_records(roots.last())
    }
}

/// The events of the calendar with text `data` and number `id`.
pub open spec fn source_events(data: Seq<char>, id: usize) -> Result<Seq<EventView>, SourceError> {
    match parsed_components(unfolded(data)) {
        None => Err(SourceError::Unreadable),
        Some(roots) => {
            let records = calendar_records(roots);
            match first_rejected(records, id) {
                Some(index) => Err(
                    SourceError::InvalidRange(InvalidRangeError { index: index as usize }),
                ),
                None => Ok(kept(records, id)),
            }
        },
    }
}

/// What is wrong with the calendar with text `data` and number `id`, if
/// anything.
pub open spec fn source_error(data: Seq<char>, id: usize) -> Option<SourceError> {
    match source_events(data, id) {
        Ok(_) => None,
        Err(e) => Some(e),
    }
}

/// What is wrong with each calendar, in the order of the calendars.
pub open spec fn source_errors(calendars: Seq<Seq<char>>) -> Seq<Option<SourceError>> {
    Seq::new(calendars.len(), |i: int| source_error(calendars[i], i as usize))
}

/// The events of the first `upto` calendars: those of each calendar that
/// gives any, calendar after calendar.
pub open spec fn all_events(calendars: Seq<Seq<char>>, upto: int) -> Seq<EventView>
    decreases upto,
{
    if upto <= 0 {
        seq![]
    } else {
        let before = all_events(calendars, upto - 1);
        match source_events(calendars[upto - 1], (upto - 1) as usize) {
            Ok(events) => before + events,
            Err(_) => before,
        }
    }
}

/// The record that the properties of a component make: start and end are
/// the dates that the values of `DTSTART` and `DTEND` begin with, summary
/// and location the values of `SUMMARY` and `LOCATION`. Of several
/// properties with one name the last counts.
pub fn raw_event(props: &Vec<RawProperty>) -> (r: RawEvent)
    ensures
        r.deep_view() == record_of(props.deep_view()),
        r.deep_view().wf(),
{
    let dtstart = String::from_str("DTSTART");
    let dtend = String::from_str("DTEND");
    let summary_name = String::from_str("SUMMARY");
    let location_name = String::from_str("LOCATION");
    let mut start: Option<String> = None;
    let mut end: Option<String> = None;
    let mut summary: Option<String> = None;
    let mut location: Option<String> = None;
    let ghost all = props.deep_view();
    let mut i: usize = 0;
    assert(all.take(0) == Seq::<(Seq<char>, Seq<char>)>::empty());
    while i < props.len()
        invariant
            i <= props.len(),
            all == props.deep_view(),
            dtstart@ == "DTSTART"@,
            dtend@ == "DTEND"@,
            summary_name@ == "SUMMARY"@,
            location_name@ == "LOCATION"@,
            start.deep_view() == property_value(all.take(i as int), "DTSTART"@),
            end.deep_view() == property_value(all.take(i as int), "DTEND"@),
            summary.deep_view() == property_value(all.take(i as int), "SUMMARY"@),
            location.deep_view() == property_value(all.take(i as int), "LOCATION"@),
        decreases props.len() - i,
    {
        let prop = &props[i];
        proof {
            assert(all.take(i + 1).drop_last() == all.take(i as int));
            assert(all.take(i + 1).last() == prop.deep_view());
        }
        if prop.name == dtstart {
            start = Some(prop.value.clone());
        }
        if prop.name == dtend {
            end = Some(prop.value.clone());
        }
        if prop.name == summary_name {
            summary = Some(prop.value.clone());
        }
        if prop.name == location_name {
            location = Some(prop.value.clone());
        }
        i = i + 1;
    }
    assert(all.take(i as int) == all);
    let start_date = match &start {
        Some(token) => CalendarDate::from_compact(token.as_str()),
        None => None,
    };
    let end_date = match &end {
        Some(token) => CalendarDate::from_compact(token.as_str()),
        None => None,
    };
    RawEvent { start: start_date, end: end_date, summary, location }
}

/// The records of a parsed calendar, in the order of its components.
pub fn raw_events(roots: &Vec<Vec<Vec<RawProperty>>>) -> (r: Vec<RawEvent>)
    ensures
        r.deep_view() == calendar_records(roots.deep_view()),
        forall|i: int| 0 <= i < r.len() ==> (#[trigger] r[i]).deep_view().wf(),
{
    let ghost all = roots.deep_view();
    let mut records: Vec<RawEvent> = Vec::new();
    let mut i: usize = 0;
    assert(all.take(0) == Seq::<Seq<Seq<(Seq<char>, Seq<char>)>>>::empty());
    while i < roots.len()
        invariant
            i <= roots.len(),
            all == roots.deep_view(),
            records.deep_view() == calendar_records(all.take(i as int)),
            forall|n: int| 0 <= n < records.len() ==> (#[trigger] records[n]).deep_view().wf(),
        decreases roots.len() - i,
    {
        let children = &roots[i];
        let ghost done = records.deep_view();
        let ghost target = component_records(children.deep_view());
        proof {
            assert(all.take(i + 1).drop_last() == all.take(i as int));
            assert(all.take(i + 1).last() == children.deep_view());
        }
        let mut j: usize = 0;
        while j < children.len()
            invariant
                j <= children.len(),
                target == component_records(children.deep_view()),
                records.deep_view() == done + target.take(j as int),
                forall|n: int| 0 <= n < records.len() ==> (#[trigger] records[n]).deep_view().wf(),
            decreases children.len() - j,
        {
            let record = raw_event(&children[j]);
            let ghost before = records.deep_view();
            assert(record.deep_view() == target[j as int]);
            records.push(record);
            assert(records.deep_view() == before.push(record.deep_view()));
            assert(target.take(j + 1) == target.take(j as int).push(target[j as int]));
            j = j + 1;
        }
        assert(target.take(j as int) == target);
        i = i + 1;
    }
    assert(all.take(i as int) == all);
    records
}

/// Reads the events of one calendar from its text.
///
/// The text is unfolded and parsed by `icalendar`; each component one
/// level below the top gives a record, and the records are turned into
/// events of calendar `id` as [`normalize`] does. A text that does not
/// parse gives `Unreadable`.
pub fn events_of_source(data: &str, id: usize) -> (r: Result<Vec<Event>, SourceError>)
    ensures
        match r {
            Ok(events) => source_events(data@, id) == Ok::<Seq<EventView>, SourceError>(
                events.deep_view(),
            ),
            Err(e) => source_events(data@, id) == Err::<Seq<EventView>, SourceError>(e),
        },
        r matches Ok(events) ==> forall|i: int| 0 <= i < events.len() ==> (#[trigger] events[i]).wf(),
{
    let text = unfold(data);
    match read_components(text.as_str()) {
        None => Err(SourceError::Unreadable),
        Some(roots) => {
            let records = raw_events(&roots);
            match normalize(&records, id) {
                Ok(events) => Ok(events),
                Err(e) => {
                    proof {
                        lemma_first_rejected(records.deep_view(), id);
                    }
                    Err(SourceError::InvalidRange(e))
                },
            }
        },
    }
}

/// Reads the events of all calendars from their texts.
///
/// The calendars are numbered from 0 in the order given, and the events
/// come calendar after calendar. A calendar whose text does not parse, or
/// that holds a record which ends before it starts, gives no events; the
/// other calendars are not affected. Beside the events the result says, for
/// each calendar in order, what was wrong with it, if anything.
pub fn get_events(calendars: &Vec<String>) -> (r: (Vec<Event>, Vec<Option<SourceError>>))
    ensures
        r.0.deep_view() == all_events(calendars.deep_view(), calendars.len() as int),
        r.1@ == source_errors(calendars.deep_view()),
        forall|i: int| 0 <= i < r.0.len() ==> (#[trigger] r.0[i]).wf(),
{
    let ghost texts = calendars.deep_view();
    let mut events: Vec<Event> = Vec::new();
    let mut errors: Vec<Option<SourceError>> = Vec::new();
    let mut id: usize = 0;
    while id < calendars.len()
        invariant
            id <= calendars.len(),
            texts == calendars.deep_view(),
            events.deep_view() == all_events(texts, id as int),
            errors@ == source_errors(texts).take(id as int),
            forall|i: int| 0 <= i < events.len() ==> (#[trigger] events[i]).wf(),
        decreases calendars.len() - id,
    {
        assert(texts[id as int] == calendars[id as int]@);
        assert(source_errors(texts).take(id + 1) == source_errors(texts).take(id as int).push(
            source_error(texts[id as int], id),
        ));
        match events_of_source(calendars[id].as_str(), id) {
            Ok(mut found) => {
                let ghost before = events.deep_view();
                let ghost added = found.deep_view();
                let ghost old_events = events@;
                let ghost old_found = found@;
                events.append(&mut found);
                assert(events@ == old_events + old_found);
                assert(events.deep_view() == before + added);
                errors.push(None);
            },
            Err(e) => {
                errors.push(Some(e));
            },
        }
        id = id + 1;
    }
    assert(source_errors(texts).take(id as int) == source_errors(texts));
    (events, errors)
}

} // verus!
