//! Laws of the decoder, the day filter, the sort and the records.

use vstd::prelude::*;
use crate::instant::{Instant, all_digits, lemma_not_after_transitive, lemma_before_total, lemma_digits_value_bound, decode_timestamp, digits_value, field_of};
use crate::event::EventView;
use crate::agenda::{insert_by_start, on_day, same_day, sort_by_start, sorted_by_start};
use crate::render::{event_line, two_digits};

verus! {

proof fn lemma_two_digits_of_field(d: Seq<char>)
    requires
        d.len() == 2,
        all_digits(d),
    ensures
        two_digits(digits_value(d)) == d,
{
    reveal_with_fuel(digits_value, 3);
    let t = d.drop_last();
    assert(t.drop_last().len() == 0);
    assert(t.last() == d[0]);
    assert('0' <= d[0] <= '9');
    assert('0' <= d[1] <= '9');
    let a = d[0] as u32 - '0' as u32;
    let b = d[1] as u32 - '0' as u32;
    assert(digits_value(d) == a * 10 + b);
    assert((a * 10 + b) / 10 == a);
    assert((a * 10 + b) % 10 == b);
    assert(two_digits(digits_value(d)) =~= d);
}

/// A decoded timestamp's hour and minute come back in an event's record as
/// the very digits that the timestamp held, zero padding included.
pub proof fn law_hour_minute_round_trip(s: Seq<char>, e: EventView)
    requires
        decode_timestamp(s) is Some,
        e.start == decode_timestamp(s)->0,
    ensures
        event_line(e).subrange(0, 5) == s.subrange(9, 11) + seq![':'] + s.subrange(11, 13),
{
    assert(field_of(s, 9, 11) is Some);
    assert(field_of(s, 11, 13) is Some);
    lemma_two_digits_of_field(s.subrange(9, 11));
    lemma_two_digits_of_field(s.subrange(11, 13));
    let t = decode_timestamp(s)->0;
    let h = digits_value(s.subrange(9, 11));
    let m = digits_value(s.subrange(11, 13));
    assert(field_of(s, 9, 11) == Some(h));
    assert(field_of(s, 11, 13) == Some(m));
    assert(h < 24 && m < 60);
    lemma_digits_value_bound(s.subrange(9, 11));
    lemma_digits_value_bound(s.subrange(11, 13));
    assert(t.hour as int == h);
    assert(t.minute as int == m);
    assert(two_digits(t.hour as int) == s.subrange(9, 11));
    assert(two_digits(t.minute as int) == s.subrange(11, 13));
    assert(event_line(e).subrange(0, 5) =~= s.subrange(9, 11) + seq![':'] + s.subrange(11, 13));
}


/// Filtering by the day of `now` a second time changes nothing.
pub proof fn law_day_filter_idempotent(s: Seq<EventView>, now: Instant)
    ensures
        on_day(on_day(s, now), now) == on_day(s, now),
    decreases s.len(),
{
    if s.len() > 0 {
        law_day_filter_idempotent(s.drop_last(), now);
        let r = on_day(s.drop_last(), now);
        if same_day(s.last().start, now) {
            assert(r.push(s.last()).drop_last() =~= r);
        }
    }
}

/// Every event that the day filter keeps starts on the day of `now`.
pub proof fn law_day_filter_keeps_only_that_day(s: Seq<EventView>, now: Instant)
    ensures
        forall|k: int| 0 <= k < on_day(s, now).len() ==> same_day(#[trigger] on_day(s, now)[k].start, now),
    decreases s.len(),
{
    if s.len() > 0 {
        law_day_filter_keeps_only_that_day(s.drop_last(), now);
        let r = on_day(s.drop_last(), now);
        if same_day(s.last().start, now) {
            assert forall|k: int| 0 <= k < r.push(s.last()).len() implies same_day(
                #[trigger] r.push(s.last())[k].start,
                now,
            ) by {
                if k < r.len() {
                    assert(r.push(s.last())[k] == r[k]);
                }
            }
        }
    }
}

proof fn lemma_insert(s: Seq<EventView>, e: EventView)
    ensures
        insert_by_start(s, e).len() == s.len() + 1,
        forall|x: EventView| #[trigger] insert_by_start(s, e).contains(x) <==> (s.contains(x) || x == e),
        sorted_by_start(s) ==> sorted_by_start(insert_by_start(s, e)),
    decreases s.len(),
{
    let r = insert_by_start(s, e);
    if s.len() == 0 {
        assert forall|x: EventView| r.contains(x) <==> (s.contains(x) || x == e) by {
            if r.contains(x) {
                assert(r[0] == e);
            } else {
                assert(r[0] == e);
            }
        }
    } else if e.start.before(s.last().start) {
        let t = s.drop_last();
        let l = s.last();
        lemma_insert(t, e);
        let q = insert_by_start(t, e);
        assert(r == q.push(l));
        assert forall|x: EventView| r.contains(x) <==> (s.contains(x) || x == e) by {
            if r.contains(x) {
                let k = choose|k: int| 0 <= k < r.len() && r[k] == x;
                if k < q.len() {
                    assert(q.contains(q[k]));
                    if t.contains(x) {
                        let j = choose|j: int| 0 <= j < t.len() && t[j] == x;
                        assert(s[j] == x);
                    }
                } else {
                    assert(s[s.len() - 1] == x);
                }
            }
            if s.contains(x) {
                let j = choose|j: int| 0 <= j < s.len() && s[j] == x;
                if j < t.len() {
                    assert(t[j] == x);
                    assert(q.contains(x));
                    let k = choose|k: int| 0 <= k < q.len() && q[k] == x;
                    assert(r[k] == x);
                } else {
                    assert(r[r.len() - 1] == x);
                }
            }
            if x == e {
                assert(q.contains(e));
                let k = choose|k: int| 0 <= k < q.len() && q[k] == e;
                assert(r[k] == x);
            }
        }
        if sorted_by_start(s) {
            assert(sorted_by_start(t)) by {
                assert forall|i: int, j: int| 0 <= i < j < t.len() implies (#[trigger] t[i]).start.not_after(
                    (#[trigger] t[j]).start,
                ) by {
                    assert(t[i] == s[i] && t[j] == s[j]);
                }
            }
            assert forall|i: int, j: int| 0 <= i < j < r.len() implies (#[trigger] r[i]).start.not_after(
                (#[trigger] r[j]).start,
            ) by {
                if j < q.len() {
                    assert(r[i] == q[i] && r[j] == q[j]);
                } else {
                    assert(r[j] == l);
                    assert(r[i] == q[i]);
                    assert(q.contains(q[i]));
                    if t.contains(q[i]) {
                        let m = choose|m: int| 0 <= m < t.len() && t[m] == q[i];
                        assert(s[m] == q[i]);
                        assert(s[m].start.not_after(s[s.len() - 1].start));
                    } else {
                        assert(q[i] == e);
                    }
                }
            }
        }
    } else {
        let l = s.last();
        assert(r == s.push(e));
        assert forall|x: EventView| r.contains(x) <==> (s.contains(x) || x == e) by {
            if r.contains(x) {
                let k = choose|k: int| 0 <= k < r.len() && r[k] == x;
                if k < s.len() {
                    assert(s[k] == x);
                }
            }
            if s.contains(x) {
                let j = choose|j: int| 0 <= j < s.len() && s[j] == x;
                assert(r[j] == x);
            }
            if x == e {
                assert(r[s.len() as int] == x);
            }
        }
        if sorted_by_start(s) {
            assert forall|i: int, j: int| 0 <= i < j < r.len() implies (#[trigger] r[i]).start.not_after(
                (#[trigger] r[j]).start,
            ) by {
                assert(r[i] == s[i]);
                if j < s.len() {
                    assert(r[j] == s[j]);
                } else {
                    assert(r[j] == e);
                    if i < s.len() - 1 {
                        assert(s[i].start.not_after(s[s.len() - 1].start));
                    }
                    lemma_not_after_transitive(s[i].start, l.start, e.start);
                }
            }
        }
    }
}

/// Sorting orders by start time, puts the earlier of two different start
/// times first, and keeps exactly the events it was given.
pub proof fn law_sort_orders(s: Seq<EventView>)
    ensures
        sort_by_start(s).len() == s.len(),
        sorted_by_start(sort_by_start(s)),
        forall|i: int, j: int|
            0 <= i < j < s.len() && (#[trigger] sort_by_start(s)[i]).start != (
            #[trigger] sort_by_start(s)[j]).start
                ==> sort_by_start(s)[i].start.before(sort_by_start(s)[j].start),
        forall|x: EventView| #[trigger] sort_by_start(s).contains(x) <==> s.contains(x),
    decreases s.len(),
{
    let r = sort_by_start(s);
    if s.len() > 0 {
        let t = s.drop_last();
        law_sort_orders(t);
        lemma_insert(sort_by_start(t), s.last());
        assert forall|x: EventView| #[trigger] r.contains(x) <==> s.contains(x) by {
            if t.contains(x) {
                let j = choose|j: int| 0 <= j < t.len() && t[j] == x;
                assert(s[j] == x);
            }
            if s.contains(x) {
                let j = choose|j: int| 0 <= j < s.len() && s[j] == x;
                if j < t.len() {
                    assert(t[j] == x);
                }
            }
        }
    }
    assert forall|i: int, j: int|
        0 <= i < j < s.len() && (#[trigger] r[i]).start != (#[trigger] r[j]).start
            implies r[i].start.before(r[j].start) by {
        lemma_before_total(r[i].start, r[j].start);
    }
}

/// Sorting a sequence that is already in order of start time returns it
/// unchanged.
pub proof fn law_sort_keeps_sorted(s: Seq<EventView>)
    requires
        sorted_by_start(s),
    ensures
        sort_by_start(s) == s,
    decreases s.len(),
{
    if s.len() > 0 {
        let t = s.drop_last();
        assert(sorted_by_start(t)) by {
            assert forall|i: int, j: int| 0 <= i < j < t.len() implies (#[trigger] t[i]).start.not_after(
                (#[trigger] t[j]).start,
            ) by {
                assert(t[i] == s[i] && t[j] == s[j]);
            }
        }
        law_sort_keeps_sorted(t);
        if t.len() > 0 {
            assert(s[t.len() - 1].start.not_after(s[s.len() - 1].start));
        }
        assert(t.push(s.last()) =~= s);
    }
}

/// Sorting twice is sorting once.
pub proof fn law_sort_idempotent(s: Seq<EventView>)
    ensures
        sort_by_start(sort_by_start(s)) == sort_by_start(s),
{
    law_sort_orders(s);
    law_sort_keeps_sorted(sort_by_start(s));
}

/// An event that does not start on the day of `now` is not in the day's
/// agenda, wherever it stood among the events.
pub proof fn law_other_days_absent(s: Seq<EventView>, now: Instant, e: EventView)
    requires
        !same_day(e.start, now),
    ensures
        !on_day(s, now).contains(e),
        !sort_by_start(on_day(s, now)).contains(e),
{
    law_day_filter_keeps_only_that_day(s, now);
    law_sort_orders(on_day(s, now));
}


/// The events of `s` that start at `t`, in their order.
pub open spec fn starting_at(s: Seq<EventView>, t: Instant) -> Seq<EventView> {
    s.filter(|e: EventView| e.start == t)
}

proof fn lemma_insert_stable(r: Seq<EventView>, e: EventView, t: Instant)
    ensures
        starting_at(insert_by_start(r, e), t) == if e.start == t {
            starting_at(r, t).push(e)
        } else {
            starting_at(r, t)
        },
    decreases r.len(),
{
    reveal(Seq::filter);
    let q = insert_by_start(r, e);
    if r.len() == 0 {
        assert(q.drop_last() =~= r);
    } else if e.start.before(r.last().start) {
        lemma_insert_stable(r.drop_last(), e, t);
        assert(q.drop_last() =~= insert_by_start(r.drop_last(), e));
    } else {
        assert(q.drop_last() =~= r);
    }
}

/// Sorting is stable: the events that start at any one instant come out in
/// the order in which they went in.
pub proof fn law_sort_stable(s: Seq<EventView>, t: Instant)
    ensures
        starting_at(sort_by_start(s), t) == starting_at(s, t),
    decreases s.len(),
{
    reveal(Seq::filter);
    if s.len() > 0 {
        law_sort_stable(s.drop_last(), t);
        lemma_insert_stable(sort_by_start(s.drop_last()), s.last(), t);
    }
}

} // verus!
