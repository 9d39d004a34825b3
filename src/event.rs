//! Events built from raw iCalendar property sets.

use vstd::prelude::*;
use crate::instant::{Instant, decode_timestamp};

verus! {

/// One property of a calendar event: its name and its value, if it has one.
#[derive(Debug)]
pub struct RawProperty {
    pub name: String,
    pub value: Option<String>,
}

/// The view of an optional value.
pub open spec fn value_view(v: Option<String>) -> Option<Seq<char>> {
    match v {
        Some(s) => Some(s@),
        None => None,
    }
}

impl View for RawProperty {
    type V = (Seq<char>, Option<Seq<char>>);

    open spec fn view(&self) -> (Seq<char>, Option<Seq<char>>) {
        (self.name@, value_view(self.value))
    }
}

/// The views of a property set.
pub open spec fn props_view(ps: Seq<RawProperty>) -> Seq<(Seq<char>, Option<Seq<char>>)> {
    ps.map_values(|p: RawProperty| p@)
}

/// Why one event's property set is malformed.
#[derive(Clone, Copy, Debug, PartialEq, Eq, Structural)]
pub enum Malformed {
    /// No `DTSTART` property, or one without a value.
    MissingStart,
    /// The `DTSTART` value is no valid timestamp.
    BadStart,
    /// No `DTEND` property, or one without a value.
    MissingEnd,
    /// The `DTEND` value is no valid timestamp.
    BadEnd,
    /// No `SUMMARY` property.
    MissingSummary,
    /// An `ATTENDEE` value shorter than the `mailto:` prefix.
    ShortAttendee,
}

/// A malformed event, with its position in the input.
#[derive(Clone, Copy, Debug, PartialEq, Eq, Structural)]
pub struct MalformedInput {
    pub event_index: usize,
    pub kind: Malformed,
}

/// A calendar event.
#[derive(Debug)]
pub struct Event {
    pub start_time: Instant,
    pub end_time: Instant,
    pub title: String,
    pub participants: Vec<String>,
}

/// What an event holds, as mathematical values.
pub struct EventView {
    pub start: Instant,
    pub end: Instant,
    pub title: Seq<char>,
    pub participants: Seq<Seq<char>>,
}

impl View for Event {
    type V = EventView;

    open spec fn view(&self) -> EventView {
        EventView {
            start: self.start_time,
            end: self.end_time,
            title: self.title@,
            participants: self.participants@.map_values(|p: String| p@),
        }
    }
}

impl Event {
    /// Both instants are well formed.
    pub open spec fn wf(&self) -> bool {
        self.start_time.wf() && self.end_time.wf()
    }
}

/// The views of a sequence of events.
pub open spec fn events_view(es: Seq<Event>) -> Seq<EventView> {
    es.map_values(|e: Event| e@)
}

/// The value of the first property named `name`: `None` where there is no
/// such property, `Some(None)` where the first one has no value.
pub open spec fn first_named(
    ps: Seq<(Seq<char>, Option<Seq<char>>)>,
    name: Seq<char>,
) -> Option<Option<Seq<char>>>
    decreases ps.len(),
{
    if ps.len() == 0 {
        None
    } else {
        match first_named(ps.drop_last(), name) {
            Some(v) => Some(v),
            None => if ps.last().0 == name {
                Some(ps.last().1)
            } else {
                None
            },
        }
    }
}

/// The `mailto:` scheme prefix.
pub open spec fn mailto_prefix() -> Seq<char> {
    seq!['m', 'a', 'i', 'l', 't', 'o', ':']
}

/// The participants of the `ATTENDEE` properties, in order: each value (or
/// the bare `mailto:` prefix where it has none) without its first seven
/// characters; `None` where a value is shorter than that.
pub open spec fn participants_of(ps: Seq<(Seq<char>, Option<Seq<char>>)>) -> Option<Seq<Seq<char>>>
    decreases ps.len(),
{
    if ps.len() == 0 {
        Some(Seq::empty())
    } else {
        match participants_of(ps.drop_last()) {
            None => None,
            Some(acc) => if ps.last().0 == "ATTENDEE"@ {
                let raw = match ps.last().1 {
                    Some(v) => v,
                    None => mailto_prefix(),
                };
                if raw.len() < 7 {
                    None
                } else {
                    Some(acc.push(raw.subrange(7, raw.len() as int)))
                }
            } else {
                Some(acc)
            },
        }
    }
}

/// The event that a property set describes, or why it describes none.
pub open spec fn event_of(ps: Seq<(Seq<char>, Option<Seq<char>>)>) -> Result<EventView, Malformed> {
    match first_named(ps, "DTSTART"@) {
        None | Some(None) => Err(Malformed::MissingStart),
        Some(Some(s)) => match decode_timestamp(s) {
            None => Err(Malformed::BadStart),
            Some(start) => match first_named(ps, "DTEND"@) {
                None | Some(None) => Err(Malformed::MissingEnd),
                Some(Some(e)) => match decode_timestamp(e) {
                    None => Err(Malformed::BadEnd),
                    Some(end) => match first_named(ps, "SUMMARY"@) {
                        None => Err(Malformed::MissingSummary),
                        Some(t) => match participants_of(ps) {
                            None => Err(Malformed::ShortAttendee),
                            Some(people) => Ok(
                                EventView {
                                    start,
                                    end,
                                    title: match t {
                                        Some(t) => t,
                                        None => Seq::empty(),
                                    },
                                    participants: people,
                                },
                            ),
                        },
                    },
                },
            },
        },
    }
}

fn clone_value(v: &Option<String>) -> (r: Option<String>)
    ensures
        value_view(r) == value_view(*v),
{
    match v {
        Some(s) => Some(s.clone()),
        None => None,
    }
}

/// The value of the first property named `name`, as `first_named` gives it.
fn find_first(props: &Vec<RawProperty>, name: &String) -> (r: Option<Option<String>>)
    ensures
        match r {
            None => first_named(props_view(props@), name@) is None,
            Some(v) => first_named(props_view(props@), name@) == Some(value_view(v)),
        },
{
    let ghost pv = props_view(props@);
    let mut found: Option<Option<String>> = None;
    let mut i: usize = 0;
    while i < props.len()
        invariant
            i <= props@.len(),
            pv == props_view(props@),
            match found {
                None => first_named(pv.subrange(0, i as int), name@) is None,
                Some(v) => first_named(pv.subrange(0, i as int), name@) == Some(value_view(v)),
            },
        decreases props.len() - i,
    {
        proof {
            assert(pv.subrange(0, i + 1).drop_last() =~= pv.subrange(0, i as int));
        }
        if found.is_none() {
            let p = &props[i];
            if p.name == *name {
                found = Some(clone_value(&p.value));
            }
        }
        i = i + 1;
    }
    proof {
        assert(pv.subrange(0, props@.len() as int) =~= pv);
    }
    found
}


/// The participants of the `ATTENDEE` properties, as `participants_of` gives them.
fn collect_participants(props: &Vec<RawProperty>) -> (r: Option<Vec<String>>)
    ensures
        match r {
            None => participants_of(props_view(props@)) is None,
            Some(v) => participants_of(props_view(props@)) == Some(
                v@.map_values(|p: String| p@),
            ),
        },
{
    let ghost pv = props_view(props@);
    let attendee = String::from_str("ATTENDEE");
    let mut acc: Vec<String> = Vec::new();
    let mut failed = false;
    let mut i: usize = 0;
    while i < props.len()
        invariant
            i <= props@.len(),
            pv == props_view(props@),
            attendee@ == "ATTENDEE"@,
            failed ==> participants_of(pv.subrange(0, i as int)) is None,
            !failed ==> participants_of(pv.subrange(0, i as int)) == Some(
                acc@.map_values(|p: String| p@),
            ),
        decreases props.len() - i,
    {
        proof {
            assert(pv.subrange(0, i + 1).drop_last() =~= pv.subrange(0, i as int));
        }
        let p = &props[i];
        if !failed && p.name == attendee {
            let raw: &str = match &p.value {
                Some(v) => v.as_str(),
                None => "mailto:",
            };
            proof {
                reveal_strlit("mailto:");
                assert("mailto:"@ =~= mailto_prefix());
            }
            let n = raw.unicode_len();
            if n < 7 {
                failed = true;
            } else {
                let rest = String::from_str(raw.substring_char(7, n));
                let ghost before = acc@;
                acc.push(rest);
                proof {
                    assert(acc@.map_values(|p: String| p@) =~= before.map_values(
                        |p: String| p@,
                    ).push(rest@));
                }
            }
        }
        i = i + 1;
    }
    proof {
        assert(pv.subrange(0, props@.len() as int) =~= pv);
    }
    if failed {
        None
    } else {
        Some(acc)
    }
}

impl Event {
    /// Builds the event that a property set describes: start and end from the
    /// first `DTSTART` and `DTEND`, the title from the first `SUMMARY` (empty
    /// where it has no value), the participants from every `ATTENDEE`.
    pub fn from_properties(props: &Vec<RawProperty>) -> (r: Result<Event, Malformed>)
        ensures
            match r {
                Ok(e) => event_of(props_view(props@)) == Ok::<EventView, Malformed>(e@) && e.wf(),
                Err(k) => event_of(props_view(props@)) == Err::<EventView, Malformed>(k),
            },
    {
        let start_text = match find_first(props, &String::from_str("DTSTART")) {
            Some(Some(s)) => s,
            _ => return Err(Malformed::MissingStart),
        };
        let start_time = match Instant::decode(start_text.as_str()) {
            Some(t) => t,
            None => return Err(Malformed::BadStart),
        };
        let end_text = match find_first(props, &String::from_str("DTEND")) {
            Some(Some(s)) => s,
            _ => return Err(Malformed::MissingEnd),
        };
        let end_time = match Instant::decode(end_text.as_str()) {
            Some(t) => t,
            None => return Err(Malformed::BadEnd),
        };
        let title = match find_first(props, &String::from_str("SUMMARY")) {
            Some(Some(t)) => t,
            Some(None) => String::new(),
            None => return Err(Malformed::MissingSummary),
        };
        let participants = match collect_participants(props) {
            Some(v) => v,
            None => return Err(Malformed::ShortAttendee),
        };
        Ok(Event { start_time, end_time, title, participants })
    }
}

} // verus!
