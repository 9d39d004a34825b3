//! The day's agenda: the events of one calendar block that start on the
//! reference day, in order of start time.

use vstd::prelude::*;
use crate::instant::{Instant, day_of_year};
use crate::event::{
    Event, EventView, MalformedInput, RawProperty, event_of, events_view, props_view,
};

verus! {

/// An ordered collection of events.
#[derive(Debug)]
pub struct Events(pub Vec<Event>);

/// `a` and `b` fall in the same year and on the same day of that year.
pub open spec fn same_day(a: Instant, b: Instant) -> bool {
    &&& a.year == b.year
    &&& day_of_year(a.year as int, a.month as int, a.day as int) == day_of_year(
        b.year as int,
        b.month as int,
        b.day as int,
    )
}

/// The events of `es` that start on the day of `now`, in their order.
pub open spec fn on_day(es: Seq<EventView>, now: Instant) -> Seq<EventView>
    decreases es.len(),
{
    if es.len() == 0 {
        Seq::empty()
    } else if same_day(es.last().start, now) {
        on_day(es.drop_last(), now).push(es.last())
    } else {
        on_day(es.drop_last(), now)
    }
}

/// `e` placed into `s` after every event that starts no later than it.
pub open spec fn insert_by_start(s: Seq<EventView>, e: EventView) -> Seq<EventView>
    decreases s.len(),
{
    if s.len() == 0 {
        seq![e]
    } else if e.start.before(s.last().start) {
        insert_by_start(s.drop_last(), e).push(s.last())
    } else {
        s.push(e)
    }
}

/// The stable sort of `s` by start time.
pub open spec fn sort_by_start(s: Seq<EventView>) -> Seq<EventView>
    decreases s.len(),
{
    if s.len() == 0 {
        Seq::empty()
    } else {
        insert_by_start(sort_by_start(s.drop_last()), s.last())
    }
}

/// No event of `s` starts after one that follows it.
pub open spec fn sorted_by_start(s: Seq<EventView>) -> bool {
    forall|i: int, j: int| 0 <= i < j < s.len() ==> (#[trigger] s[i]).start.not_after((#[trigger] s[j]).start)
}

/// Every event of `es` is well formed.
pub open spec fn all_wf(es: Seq<Event>) -> bool {
    forall|i: int| 0 <= i < es.len() ==> (#[trigger] es[i]).wf()
}

proof fn lemma_insert_at(s: Seq<EventView>, e: EventView, p: int)
    requires
        0 <= p <= s.len(),
        forall|j: int| p <= j < s.len() ==> e.start.before(#[trigger] s[j].start),
        p > 0 ==> !e.start.before(s[p - 1].start),
    ensures
        insert_by_start(s, e) == s.insert(p, e),
    decreases s.len(),
{
    if p == s.len() {
        if s.len() == 0 {
            assert(seq![e] =~= s.insert(p, e));
        } else {
            assert(s.push(e) =~= s.insert(p, e));
        }
    } else {
        let t = s.drop_last();
        assert forall|j: int| p <= j < t.len() implies e.start.before(#[trigger] t[j].start) by {
            assert(t[j] == s[j]);
        }
        lemma_insert_at(t, e, p);
        assert(t.insert(p, e).push(s.last()) =~= s.insert(p, e));
    }
}

/// Places `e` into `sorted` after every event that starts no later than it.
fn insert_event(sorted: &mut Vec<Event>, e: Event)
    requires
        all_wf(old(sorted)@),
        e.wf(),
    ensures
        events_view(final(sorted)@) == insert_by_start(events_view(old(sorted)@), e@),
        all_wf(final(sorted)@),
{
    let ghost sv = events_view(sorted@);
    let mut p: usize = sorted.len();
    while p > 0 && e.start_time.precedes(&sorted[p - 1].start_time)
        invariant
            p <= sorted@.len(),
            sv == events_view(sorted@),
            forall|j: int| p <= j < sv.len() ==> e.start_time.before(#[trigger] sv[j].start),
        decreases p,
    {
        p = p - 1;
    }
    proof {
        lemma_insert_at(sv, e@, p as int);
    }
    let ghost before = sorted@;
    sorted.insert(p, e);
    proof {
        assert(events_view(sorted@) =~= sv.insert(p as int, e@));
        assert forall|k: int| 0 <= k < sorted@.len() implies (#[trigger] sorted@[k]).wf() by {
            if k < p {
                assert(sorted@[k] == before[k]);
            } else if k > p {
                assert(sorted@[k] == before[k - 1]);
            }
        }
    }
}

impl Events {
    /// Keeps the events that start in the year and on the day of the year of
    /// `now`, in their order.
    pub fn retain_day(&mut self, now: &Instant)
        requires
            all_wf(old(self).0@),
            now.wf(),
        ensures
            events_view(final(self).0@) == on_day(events_view(old(self).0@), *now),
            all_wf(final(self).0@),
    {
        let ghost orig = self.0@;
        let n: usize = self.0.len();
        let year = now.year;
        let day = now.ordinal();
        let mut kept: Vec<Event> = Vec::new();
        let mut i: usize = 0;
        while self.0.len() > 0
            invariant
                i <= orig.len() == n,
                self.0@ == orig.subrange(i as int, orig.len() as int),
                all_wf(orig),
                all_wf(kept@),
                events_view(kept@) == on_day(events_view(orig.subrange(0, i as int)), *now),
                year == now.year,
                day == day_of_year(now.year as int, now.month as int, now.day as int),
            decreases self.0@.len(),
        {
            let e = self.0.remove(0);
            proof {
                assert(e == orig[i as int]);
                assert(events_view(orig.subrange(0, i + 1)).drop_last() =~= events_view(
                    orig.subrange(0, i as int),
                ));
                assert(self.0@ =~= orig.subrange(i + 1, orig.len() as int));
            }
            if e.start_time.year == year && e.start_time.ordinal() == day {
                let ghost k0 = kept@;
                kept.push(e);
                proof {
                    assert(events_view(kept@) =~= events_view(k0).push(e@));
                }
            }
            i = i + 1;
        }
        proof {
            assert(orig.subrange(0, i as int) =~= orig);
        }
        self.0 = kept;
    }

    /// Orders the events by start time; events that start together keep
    /// their order.
    pub fn sort_by_start(&mut self)
        requires
            all_wf(old(self).0@),
        ensures
            events_view(final(self).0@) == sort_by_start(events_view(old(self).0@)),
            all_wf(final(self).0@),
    {
        let ghost orig = self.0@;
        let n: usize = self.0.len();
        let mut sorted: Vec<Event> = Vec::new();
        let mut i: usize = 0;
        while self.0.len() > 0
            invariant
                i <= orig.len() == n,
                self.0@ == orig.subrange(i as int, orig.len() as int),
                all_wf(orig),
                all_wf(sorted@),
                events_view(sorted@) == sort_by_start(events_view(orig.subrange(0, i as int))),
            decreases self.0@.len(),
        {
            let e = self.0.remove(0);
            proof {
                assert(e == orig[i as int]);
                assert(events_view(orig.subrange(0, i + 1)).drop_last() =~= events_view(
                    orig.subrange(0, i as int),
                ));
                assert(self.0@ =~= orig.subrange(i + 1, orig.len() as int));
            }
            insert_event(&mut sorted, e);
            i = i + 1;
        }
        proof {
            assert(orig.subrange(0, i as int) =~= orig);
        }
        self.0 = sorted;
    }
}


/// The views of the property sets of a calendar block's events.
pub open spec fn raw_events_view(raws: Seq<Vec<RawProperty>>) -> Seq<Seq<(Seq<char>, Option<Seq<char>>)>> {
    raws.map_values(|ps: Vec<RawProperty>| props_view(ps@))
}

/// The events that the property sets describe, in order, or the first
/// malformed one and why.
pub open spec fn events_of(raws: Seq<Seq<(Seq<char>, Option<Seq<char>>)>>) -> Result<Seq<EventView>, MalformedInput>
    decreases raws.len(),
{
    if raws.len() == 0 {
        Ok(Seq::empty())
    } else {
        match events_of(raws.drop_last()) {
            Err(m) => Err(m),
            Ok(acc) => match event_of(raws.last()) {
                Err(k) => Err(MalformedInput { event_index: (raws.len() - 1) as usize, kind: k }),
                Ok(e) => Ok(acc.push(e)),
            },
        }
    }
}

/// The agenda of a calendar block for the day of `now`: its events that
/// start that day, by start time; or the first malformed event.
pub open spec fn agenda_of(raws: Seq<Seq<(Seq<char>, Option<Seq<char>>)>>, now: Instant) -> Result<Seq<EventView>, MalformedInput> {
    match events_of(raws) {
        Err(m) => Err(m),
        Ok(all) => Ok(sort_by_start(on_day(all, now))),
    }
}

/// The events of an agenda as views, or its failure.
pub open spec fn agenda_view(r: Result<Events, MalformedInput>) -> Result<Seq<EventView>, MalformedInput> {
    match r {
        Ok(es) => Ok(events_view(es.0@)),
        Err(m) => Err(m),
    }
}

impl Event {
    /// Builds every event of a calendar block, keeps those that start on the
    /// day of `now`, and orders them by start time. Any malformed event
    /// fails the whole block.
    pub fn from_ical_events(events: Vec<Vec<RawProperty>>, now: Instant) -> (r: Result<Events, MalformedInput>)
        requires
            now.wf(),
        ensures
            agenda_view(r) == agenda_of(raw_events_view(events@), now),
            r matches Ok(es) ==> all_wf(es.0@),
    {
        let ghost rv = raw_events_view(events@);
        let mut built: Vec<Event> = Vec::new();
        let mut i: usize = 0;
        proof {
            assert(events_view(built@) =~= Seq::<EventView>::empty());
            assert(rv.subrange(0, 0).len() == 0);
        }
        while i < events.len()
            invariant
                i <= events@.len(),
                rv == raw_events_view(events@),
                all_wf(built@),
                events_of(rv.subrange(0, i as int)) == Ok::<Seq<EventView>, MalformedInput>(
                    events_view(built@),
                ),
            decreases events.len() - i,
        {
            proof {
                assert(rv.subrange(0, i + 1).drop_last() =~= rv.subrange(0, i as int));
                assert(rv.subrange(0, i + 1).last() == props_view(events@[i as int]@));
            }
            match Event::from_properties(&events[i]) {
                Err(kind) => {
                    proof {
                        lemma_events_of_err_extends(rv, i as int + 1);
                    }
                    return Err(MalformedInput { event_index: i, kind });
                },
                Ok(e) => {
                    let ghost b0 = built@;
                    built.push(e);
                    proof {
                        assert(events_view(built@) =~= events_view(b0).push(e@));
                    }
                },
            }
            i = i + 1;
        }
        proof {
            assert(rv.subrange(0, i as int) =~= rv);
        }
        let mut day = Events(built);
        day.retain_day(&now);
        day.sort_by_start();
        Ok(day)
    }

}

/// A failure among the first `k` events fails the whole block.
proof fn lemma_events_of_err_extends(raws: Seq<Seq<(Seq<char>, Option<Seq<char>>)>>, k: int)
    requires
        0 <= k <= raws.len(),
        events_of(raws.subrange(0, k)) is Err,
    ensures
        events_of(raws) == events_of(raws.subrange(0, k)),
    decreases raws.len(),
{
    if raws.len() > k {
        assert(raws.drop_last().subrange(0, k) =~= raws.subrange(0, k));
        lemma_events_of_err_extends(raws.drop_last(), k);
    } else {
        assert(raws.subrange(0, k) =~= raws);
    }
}

} // verus!
