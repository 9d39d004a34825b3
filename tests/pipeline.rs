use ics_today::agenda::Events;
use ics_today::event::{Event, Malformed, MalformedInput, RawProperty};
use ics_today::instant::Instant;

fn prop(name: &str, value: &str) -> RawProperty {
    RawProperty { name: name.to_string(), value: Some(value.to_string()) }
}

fn bare(name: &str) -> RawProperty {
    RawProperty { name: name.to_string(), value: None }
}

fn at(year: i32, month: u32, day: u32, hour: u32, minute: u32, second: u32) -> Instant {
    Instant { year, month, day, hour, minute, second }
}

fn standup() -> Vec<RawProperty> {
    vec![
        prop("DTSTART", "20240615T090000"),
        prop("DTEND", "20240615T100000"),
        prop("SUMMARY", "Standup"),
        prop("ATTENDEE", "mailto:a@x.com"),
        prop("ATTENDEE", "mailto:b@x.com"),
    ]
}

fn simple(start: &str, end: &str, title: &str) -> Vec<RawProperty> {
    vec![prop("DTSTART", start), prop("DTEND", end), prop("SUMMARY", title)]
}

#[test]
fn standup_renders_one_line() {
    let now = at(2024, 6, 15, 12, 0, 0);
    let day = Event::from_ical_events(vec![standup()], now).unwrap();
    assert_eq!(day.0.len(), 1);
    assert_eq!(day.0[0].to_string(), "09:00;10:00;Standup;a@x.com,b@x.com");
    assert_eq!(day.to_string(), "09:00;10:00;Standup;a@x.com,b@x.com\n");
}

#[test]
fn missing_summary_is_malformed() {
    let props = vec![prop("DTSTART", "20240615T090000"), prop("DTEND", "20240615T100000")];
    let now = at(2024, 6, 15, 12, 0, 0);
    let r = Event::from_ical_events(vec![props], now);
    assert_eq!(r.unwrap_err(), MalformedInput { event_index: 0, kind: Malformed::MissingSummary });
}

#[test]
fn valueless_summary_gives_empty_title() {
    let props = vec![
        prop("DTSTART", "20240615T090000"),
        prop("DTEND", "20240615T100000"),
        bare("SUMMARY"),
    ];
    let e = Event::from_properties(&props).unwrap();
    assert_eq!(e.title, "");
    assert_eq!(e.to_string(), "09:00;10:00;;");
}

#[test]
fn other_day_is_left_out() {
    let now = at(2024, 6, 15, 12, 0, 0);
    let events = vec![
        simple("20240616T080000", "20240616T090000", "Tomorrow"),
        simple("20240615T110000", "20240615T120000", "Late"),
        simple("20230615T070000", "20230615T080000", "Last year"),
        simple("20240615T070000", "20240615T080000", "Early"),
    ];
    let day = Event::from_ical_events(events, now).unwrap();
    assert_eq!(day.to_string(), "07:00;08:00;Early;\n11:00;12:00;Late;\n");
}

#[test]
fn valueless_attendee_is_empty_participant() {
    let mut props = simple("20240615T090000", "20240615T100000", "Sync");
    props.push(bare("ATTENDEE"));
    props.push(prop("ATTENDEE", "mailto:c@x.com"));
    let e = Event::from_properties(&props).unwrap();
    assert_eq!(e.participants, vec!["".to_string(), "c@x.com".to_string()]);
    assert_eq!(e.to_string(), "09:00;10:00;Sync;,c@x.com");
}

#[test]
fn short_attendee_is_malformed() {
    let mut props = simple("20240615T090000", "20240615T100000", "Sync");
    props.push(prop("ATTENDEE", "a@x"));
    assert_eq!(Event::from_properties(&props).unwrap_err(), Malformed::ShortAttendee);
}

#[test]
fn attendee_prefix_is_dropped_whatever_it_is() {
    let mut props = simple("20240615T090000", "20240615T100000", "Sync");
    props.push(prop("ATTENDEE", "MAILTO:d@x.com"));
    props.push(prop("ATTENDEE", "mailto:"));
    let e = Event::from_properties(&props).unwrap();
    assert_eq!(e.participants, vec!["d@x.com".to_string(), "".to_string()]);
}

#[test]
fn missing_or_bad_times_are_malformed() {
    let no_start = vec![prop("DTEND", "20240615T100000"), prop("SUMMARY", "x")];
    assert_eq!(Event::from_properties(&no_start).unwrap_err(), Malformed::MissingStart);
    let valueless_start = vec![bare("DTSTART"), prop("DTEND", "20240615T100000"), prop("SUMMARY", "x")];
    assert_eq!(Event::from_properties(&valueless_start).unwrap_err(), Malformed::MissingStart);
    let bad_start = simple("2024061", "20240615T100000", "x");
    assert_eq!(Event::from_properties(&bad_start).unwrap_err(), Malformed::BadStart);
    let no_end = vec![prop("DTSTART", "20240615T100000"), prop("SUMMARY", "x")];
    assert_eq!(Event::from_properties(&no_end).unwrap_err(), Malformed::MissingEnd);
    let bad_end = simple("20240615T090000", "20240631T100000", "x");
    assert_eq!(Event::from_properties(&bad_end).unwrap_err(), Malformed::BadEnd);
}

#[test]
fn first_property_of_a_name_wins() {
    let props = vec![
        prop("SUMMARY", "First"),
        prop("DTSTART", "20240615T090000"),
        prop("DTSTART", "20240615T110000"),
        prop("DTEND", "20240615T100000"),
        prop("SUMMARY", "Second"),
    ];
    let e = Event::from_properties(&props).unwrap();
    assert_eq!(e.title, "First");
    assert_eq!(e.start_time, at(2024, 6, 15, 9, 0, 0));
}

#[test]
fn end_before_start_is_kept() {
    let e = Event::from_properties(&simple("20240615T100000", "20240615T090000", "Odd")).unwrap();
    assert_eq!(e.to_string(), "10:00;09:00;Odd;");
}

#[test]
fn malformed_event_on_other_day_still_fails() {
    let now = at(2024, 6, 15, 12, 0, 0);
    let events = vec![standup(), simple("20240101T090000", "bad", "x")];
    let r = Event::from_ical_events(events, now);
    assert_eq!(r.unwrap_err(), MalformedInput { event_index: 1, kind: Malformed::BadEnd });
}

#[test]
fn sort_is_stable_on_equal_starts() {
    let mut day = Events(vec![
        Event::from_properties(&simple("20240615T100000", "20240615T110000", "B")).unwrap(),
        Event::from_properties(&simple("20240615T090000", "20240615T100000", "A")).unwrap(),
        Event::from_properties(&simple("20240615T100000", "20240615T103000", "C")).unwrap(),
    ]);
    day.sort_by_start();
    assert_eq!(day.to_string(), "09:00;10:00;A;\n10:00;11:00;B;\n10:00;10:30;C;\n");
    day.sort_by_start();
    assert_eq!(day.to_string(), "09:00;10:00;A;\n10:00;11:00;B;\n10:00;10:30;C;\n");
}

#[test]
fn sort_orders_by_seconds_and_dates() {
    let mut day = Events(vec![
        Event::from_properties(&simple("20240615T090001", "20240615T100000", "B")).unwrap(),
        Event::from_properties(&simple("20240614T230000", "20240615T100000", "A")).unwrap(),
        Event::from_properties(&simple("20240615T090000", "20240615T100000", "Z")).unwrap(),
    ]);
    day.sort_by_start();
    let titles: Vec<&str> = day.0.iter().map(|e| e.title.as_str()).collect();
    assert_eq!(titles, vec!["A", "Z", "B"]);
}

#[test]
fn day_filter_twice_is_once() {
    let now = at(2024, 6, 15, 0, 0, 0);
    let mut day = Events(vec![
        Event::from_properties(&simple("20240615T235959", "20240616T000000", "Late")).unwrap(),
        Event::from_properties(&simple("20240616T000000", "20240616T010000", "Next")).unwrap(),
        Event::from_properties(&simple("20240615T000000", "20240615T010000", "Early")).unwrap(),
    ]);
    day.retain_day(&now);
    let once = day.to_string();
    assert_eq!(once, "23:59;00:00;Late;\n00:00;01:00;Early;\n");
    day.retain_day(&now);
    assert_eq!(day.to_string(), once);
}

#[test]
fn empty_block_renders_nothing() {
    let now = at(2024, 6, 15, 12, 0, 0);
    let day = Event::from_ical_events(vec![], now).unwrap();
    assert_eq!(day.to_string(), "");
}
