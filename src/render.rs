//! One-line text records of events: `HH:MM;HH:MM;TITLE;P1,P2,...`.

use vstd::prelude::*;
use crate::event::{Event, EventView, events_view};
use crate::agenda::{Events, all_wf};

verus! {

/// The character of the decimal digit `d`.
pub open spec fn digit_char(d: int) -> char {
    seq!['0', '1', '2', '3', '4', '5', '6', '7', '8', '9'][d]
}

/// `n` written with two decimal digits, zero-padded.
pub open spec fn two_digits(n: int) -> Seq<char> {
    seq![digit_char(n / 10), digit_char(n % 10)]
}

/// The texts of `ps` joined with commas.
pub open spec fn join_commas(ps: Seq<Seq<char>>) -> Seq<char>
    decreases ps.len(),
{
    if ps.len() == 0 {
        Seq::empty()
    } else if ps.len() == 1 {
        ps[0]
    } else {
        join_commas(ps.drop_last()) + seq![','] + ps.last()
    }
}

/// The record of an event: start and end as `HH:MM`, the title and the
/// participants, separated by semicolons.
pub open spec fn event_line(e: EventView) -> Seq<char> {
    two_digits(e.start.hour as int) + seq![':'] + two_digits(e.start.minute as int) + seq![';']
        + two_digits(e.end.hour as int) + seq![':'] + two_digits(e.end.minute as int) + seq![';']
        + e.title + seq![';'] + join_commas(e.participants)
}

/// The records of `es`, each followed by a newline.
pub open spec fn agenda_text(es: Seq<EventView>) -> Seq<char>
    decreases es.len(),
{
    if es.len() == 0 {
        Seq::empty()
    } else {
        agenda_text(es.drop_last()) + event_line(es.last()) + seq!['\n']
    }
}

fn push_digit(s: &mut String, d: u32)
    requires
        d < 10,
    ensures
        final(s)@ == old(s)@.push(digit_char(d as int)),
{
    proof {
        reveal_strlit("0");
        reveal_strlit("1");
        reveal_strlit("2");
        reveal_strlit("3");
        reveal_strlit("4");
        reveal_strlit("5");
        reveal_strlit("6");
        reveal_strlit("7");
        reveal_strlit("8");
        reveal_strlit("9");
    }
    let ghost s0 = s@;
    match d {
        0 => s.append("0"),
        1 => s.append("1"),
        2 => s.append("2"),
        3 => s.append("3"),
        4 => s.append("4"),
        5 => s.append("5"),
        6 => s.append("6"),
        7 => s.append("7"),
        8 => s.append("8"),
        _ => s.append("9"),
    }
    assert(s@ =~= s0.push(digit_char(d as int)));
}

fn push_two_digits(s: &mut String, n: u32)
    requires
        n < 100,
    ensures
        final(s)@ == old(s)@ + two_digits(n as int),
{
    let ghost s0 = s@;
    push_digit(s, n / 10);
    push_digit(s, n % 10);
    assert(s@ =~= s0 + two_digits(n as int));
}

fn push_char_text(s: &mut String, t: &str)
    ensures
        final(s)@ == old(s)@ + t@,
{
    s.append(t);
}

impl Event {
    /// The record of this event, as `event_line` gives it.
    pub fn to_string(&self) -> (r: String)
        requires
            self.wf(),
        ensures
            r@ == event_line(self@),
    {
        proof {
            reveal_strlit(":");
            reveal_strlit(";");
            reveal_strlit(",");
        }
        let mut s = String::new();
        push_two_digits(&mut s, self.start_time.hour);
        push_char_text(&mut s, ":");
        push_two_digits(&mut s, self.start_time.minute);
        push_char_text(&mut s, ";");
        push_two_digits(&mut s, self.end_time.hour);
        push_char_text(&mut s, ":");
        push_two_digits(&mut s, self.end_time.minute);
        push_char_text(&mut s, ";");
        s.append(self.title.as_str());
        push_char_text(&mut s, ";");
        let ghost head = s@;
        let ghost ps = self@.participants;
        let mut i: usize = 0;
        while i < self.participants.len()
            invariant
                i <= self.participants@.len(),
                ps == self.participants@.map_values(|p: String| p@),
                s@ == head + join_commas(ps.subrange(0, i as int)),
                ","@ == seq![','],
            decreases self.participants.len() - i,
        {
            proof {
                assert(ps.subrange(0, i + 1).drop_last() =~= ps.subrange(0, i as int));
            }
            if i > 0 {
                push_char_text(&mut s, ",");
            }
            s.append(self.participants[i].as_str());
            proof {
                assert(ps.subrange(0, i + 1).last() == self.participants@[i as int]@);
                if i == 0 {
                    assert(ps.subrange(0, 1) =~= seq![ps[0]]);
                }
                assert(s@ =~= head + join_commas(ps.subrange(0, i + 1)));
            }
            i = i + 1;
        }
        proof {
            assert(ps.subrange(0, self.participants@.len() as int) =~= ps);
        }
        assert(s@ =~= event_line(self@));
        s
    }
}

impl Events {
    /// The records of the events, each followed by a newline.
    pub fn to_string(&self) -> (r: String)
        requires
            all_wf(self.0@),
        ensures
            r@ == agenda_text(events_view(self.0@)),
    {
        proof {
            reveal_strlit("\n");
        }
        let ghost ev = events_view(self.0@);
        let mut s = String::new();
        let mut i: usize = 0;
        while i < self.0.len()
            invariant
                i <= self.0@.len(),
                ev == events_view(self.0@),
                all_wf(self.0@),
                s@ == agenda_text(ev.subrange(0, i as int)),
                "\n"@ == seq!['\n'],
            decreases self.0.len() - i,
        {
            proof {
                assert(ev.subrange(0, i + 1).drop_last() =~= ev.subrange(0, i as int));
            }
            let line = self.0[i].to_string();
            let ghost s0 = s@;
            s.append(line.as_str());
            push_char_text(&mut s, "\n");
            proof {
                assert(ev.subrange(0, i + 1).last() == self.0@[i as int]@);
                assert(s@ =~= s0 + event_line(self.0@[i as int]@) + seq!['\n']);
            }
            i = i + 1;
        }
        proof {
            assert(ev.subrange(0, self.0@.len() as int) =~= ev);
        }
        s
    }
}

} // verus!
